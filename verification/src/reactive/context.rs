use vstd::prelude::*;

verus! {

/// Identifies a registered effect.
pub type EffectId = usize;

/// The dependency-tracking state, as mathematical values.
pub struct ContextState {
    /// The effect whose reads are being tracked, if any.
    pub current: Option<EffectId>,
    /// How many effects have been registered.
    pub effect_count: nat,
    /// For each effect, the signals it read during its last tracked run.
    pub tracking: Seq<Seq<usize>>,
    /// The identifier the next signal receives.
    pub next_signal: usize,
}

/// The dependency-tracking context shared by signals, computed values and
/// effects: which effect is running, which signals each effect read, and the
/// counters that name effects and signals.
pub struct ReactiveContext {
    current_effect: Option<EffectId>,
    effect_count: usize,
    tracking: Vec<Vec<usize>>,
    next_signal_id: usize,
}

impl View for ReactiveContext {
    type V = ContextState;

    closed spec fn view(&self) -> ContextState {
        ContextState {
            current: self.current_effect,
            effect_count: self.effect_count as nat,
            tracking: self.tracking@.map_values(|v: Vec<usize>| v@),
            next_signal: self.next_signal_id,
        }
    }
}

/// The identifier after `x` (identifiers wrap around after `usize::MAX`).
pub open spec fn next_signal_id(x: usize) -> usize {
    if x == usize::MAX {
        0
    } else {
        (x + 1) as usize
    }
}

/// The state after registering one more effect.
pub open spec fn state_after_run_effect(s: ContextState) -> ContextState {
    ContextState { effect_count: s.effect_count + 1, ..s }
}

/// The state once effect `e` starts a tracked run: it is the current effect,
/// it has a tracking slot, and its previous reads are forgotten.
pub open spec fn state_after_track_effect(s: ContextState, e: EffectId) -> ContextState {
    let len: int = if s.tracking.len() > e { s.tracking.len() as int } else { e + 1 };
    ContextState {
        current: Some(e),
        tracking: Seq::new(
            len as nat,
            |i: int|
                if i == e {
                    Seq::empty()
                } else if i < s.tracking.len() {
                    s.tracking[i]
                } else {
                    Seq::empty()
                },
        ),
        ..s
    }
}

/// The state after signal `sid` is read: the current effect, if it has a
/// tracking slot, records the read once.
pub open spec fn state_after_track_signal(s: ContextState, sid: usize) -> ContextState {
    match s.current {
        Some(e) => if e < s.tracking.len() && !s.tracking[e as int].contains(sid) {
            ContextState { tracking: s.tracking.update(e as int, s.tracking[e as int].push(sid)), ..s }
        } else {
            s
        },
        None => s,
    }
}

/// The signals effect `e` read during its last tracked run.
pub open spec fn inputs(s: ContextState, e: EffectId) -> Seq<usize> {
    if e < s.tracking.len() {
        s.tracking[e as int]
    } else {
        Seq::empty()
    }
}

/// The state after the signals `sids` are read, in order.
pub open spec fn state_after_track_signals(s: ContextState, sids: Seq<usize>) -> ContextState
    decreases sids.len(),
{
    if sids.len() == 0 {
        s
    } else {
        state_after_track_signal(state_after_track_signals(s, sids.drop_last()), sids.last())
    }
}

/// The effects among the first `k` whose last tracked run read `sid`, in
/// increasing order.
pub open spec fn dependents(tracking: Seq<Seq<usize>>, sid: usize, k: int) -> Seq<EffectId>
    decreases k,
{
    if k <= 0 {
        Seq::empty()
    } else {
        let rest = dependents(tracking, sid, k - 1);
        if tracking[k - 1].contains(sid) {
            rest.push((k - 1) as EffectId)
        } else {
            rest
        }
    }
}

/// The first `k` of `deps` that name registered effects (below `count`).
pub open spec fn registered(deps: Seq<EffectId>, count: nat, k: int) -> Seq<EffectId>
    decreases k,
{
    if k <= 0 {
        Seq::empty()
    } else {
        let rest = registered(deps, count, k - 1);
        if deps[k - 1] < count {
            rest.push(deps[k - 1])
        } else {
            rest
        }
    }
}

/// The registered effects whose last tracked run read `sid`, in increasing order.
pub open spec fn triggered(s: ContextState, sid: usize) -> Seq<EffectId> {
    let deps = dependents(s.tracking, sid, s.tracking.len() as int);
    registered(deps, s.effect_count, deps.len() as int)
}

impl ReactiveContext {
    /// An empty context: no effect running or registered, no signal named.
    pub fn new() -> (c: ReactiveContext)
        ensures
            c@.current is None,
            c@.effect_count == 0,
            c@.tracking.len() == 0,
            c@.next_signal == 0,
    {
        let c = ReactiveContext { current_effect: None, effect_count: 0, tracking: Vec::new(), next_signal_id: 0 };
        assert(c@.tracking =~= Seq::<Seq<usize>>::empty());
        c
    }

    /// The effect whose reads are being tracked, if any.
    pub fn current_effect(&self) -> (e: Option<EffectId>)
        ensures
            e == self@.current,
    {
        self.current_effect
    }

    /// Register an effect to be re-run when its dependencies change; returns
    /// its identifier (the number of effects registered before it). The host
    /// keeps the effect's closure under that identifier.
    pub fn run_effect(&mut self) -> (id: EffectId)
        requires
            old(self)@.effect_count < usize::MAX,
        ensures
            id == old(self)@.effect_count,
            final(self)@ == state_after_run_effect(old(self)@),
    {
        let id = self.effect_count;
        self.effect_count = id + 1;
        id
    }

    /// Start a tracked run of effect `effect_id`: it becomes the current
    /// effect and its recorded reads are cleared, so that the signals it reads
    /// during this run (reported through [`ReactiveContext::track_signal`])
    /// become its dependencies. Returns the previously current effect, to be
    /// restored with [`ReactiveContext::finish_tracking`] when the run ends.
    pub fn track_effect(&mut self, effect_id: EffectId) -> (prev: Option<EffectId>)
        requires
            effect_id < usize::MAX,
        ensures
            prev == old(self)@.current,
            final(self)@ == state_after_track_effect(old(self)@, effect_id),
    {
        let prev = self.current_effect;
        self.current_effect = Some(effect_id);
        let ghost t0 = self@.tracking;
        // Ensure we have a tracking list slot for this effect
        while self.tracking.len() <= effect_id
            invariant
                t0.len() <= self.tracking@.len(),
                self.tracking@.len() <= effect_id + 1 || self.tracking@.len() == t0.len(),
                self.current_effect == Some(effect_id),
                self.effect_count == old(self).effect_count,
                self.next_signal_id == old(self).next_signal_id,
                t0 == old(self)@.tracking,
                forall|i: int| 0 <= i < t0.len() ==> #[trigger] self.tracking@[i]@ == t0[i],
                forall|i: int| t0.len() <= i < self.tracking@.len() ==> #[trigger] self.tracking@[i]@ == Seq::<usize>::empty(),
            decreases effect_id + 1 - self.tracking@.len(),
        {
            self.tracking.push(Vec::new());
        }
        let slot = &mut self.tracking[effect_id];
        slot.clear();
        proof {
            assert(self@.tracking =~= state_after_track_effect(old(self)@, effect_id).tracking);
            assert(self@ == state_after_track_effect(old(self)@, effect_id));
        }
        prev
    }

    /// End a tracked run: make `prev` the current effect again.
    pub fn finish_tracking(&mut self, prev: Option<EffectId>)
        ensures
            final(self)@ == (ContextState { current: prev, ..old(self)@ }),
    {
        self.current_effect = prev;
    }

    /// Called when signal `signal_id` is read: registers the current effect
    /// as a subscriber of it.
    pub fn track_signal(&mut self, signal_id: usize)
        ensures
            final(self)@ == state_after_track_signal(old(self)@, signal_id),
    {
        if let Some(effect_id) = self.current_effect {
            if effect_id < self.tracking.len() {
                if !vec_contains(&self.tracking[effect_id], signal_id) {
                    let ghost t0 = self@.tracking;
                    let slot = &mut self.tracking[effect_id];
                    slot.push(signal_id);
                    proof {
                        assert(self@.tracking =~= t0.update(
                            effect_id as int,
                            t0[effect_id as int].push(signal_id),
                        ));
                    }
                }
            }
        }
    }

    /// Called when a computed value whose recomputing effect is `source` is
    /// read: the current effect becomes a subscriber of each signal that
    /// `source` read during its last tracked run.
    pub fn track_inputs_of(&mut self, source: EffectId)
        ensures
            final(self)@ == state_after_track_signals(old(self)@, inputs(old(self)@, source)),
    {
        let mut sids: Vec<usize> = Vec::new();
        if source < self.tracking.len() {
            sids = self.tracking[source].clone();
        }
        let ghost s0 = self@;
        proof {
            assert(sids@ == inputs(s0, source));
        }
        let mut i: usize = 0;
        while i < sids.len()
            invariant
                i <= sids@.len(),
                sids@ == inputs(s0, source),
                self@ == state_after_track_signals(s0, sids@.take(i as int)),
            decreases sids@.len() - i,
        {
            proof {
                assert(sids@.take(i + 1).drop_last() =~= sids@.take(i as int));
            }
            self.track_signal(sids[i]);
            i = i + 1;
        }
        proof {
            assert(sids@.take(sids@.len() as int) =~= sids@);
        }
    }

    /// Get all effect IDs that depend on a given signal, in increasing order.
    pub fn get_dependent_effects(&self, signal_id: usize) -> (deps: Vec<EffectId>)
        ensures
            deps@ == dependents(self@.tracking, signal_id, self@.tracking.len() as int),
    {
        let mut deps: Vec<EffectId> = Vec::new();
        let mut e: usize = 0;
        while e < self.tracking.len()
            invariant
                e <= self.tracking@.len(),
                deps@ == dependents(self@.tracking, signal_id, e as int),
            decreases self.tracking@.len() - e,
        {
            if vec_contains(&self.tracking[e], signal_id) {
                deps.push(e);
            }
            e = e + 1;
        }
        deps
    }

    /// The effects to re-run because signal `signal_id` changed: the
    /// registered effects that depend on it, in increasing order. The caller
    /// runs each one under [`ReactiveContext::track_effect`].
    pub fn trigger_effects(&self, signal_id: usize) -> (run: Vec<EffectId>)
        ensures
            run@ == triggered(self@, signal_id),
    {
        let deps = self.get_dependent_effects(signal_id);
        let mut run: Vec<EffectId> = Vec::new();
        let mut k: usize = 0;
        while k < deps.len()
            invariant
                k <= deps@.len(),
                run@ == registered(deps@, self@.effect_count, k as int),
            decreases deps@.len() - k,
        {
            let dep_id = deps[k];
            if dep_id < self.effect_count {
                run.push(dep_id);
            }
            k = k + 1;
        }
        run
    }

    /// Allocate the identifier of a new signal.
    pub fn new_signal_id(&mut self) -> (id: usize)
        ensures
            id == old(self)@.next_signal,
            final(self)@ == (ContextState { next_signal: next_signal_id(id), ..old(self)@ }),
    {
        let id = self.next_signal_id;
        self.next_signal_id = if id == usize::MAX {
            0
        } else {
            id + 1
        };
        id
    }
}

// ---------------------------------------------------------------------------
// Laws of dependency tracking
// ---------------------------------------------------------------------------

/// A context records at most `usize::MAX` tracking slots.
pub proof fn lemma_tracking_bounded(c: &ReactiveContext)
    ensures
        c@.tracking.len() <= usize::MAX,
{
    assert(c.tracking.len() == c.tracking@.len());
}

proof fn lemma_dependents_contains(tracking: Seq<Seq<usize>>, sid: usize, k: int, e: int)
    requires
        0 <= k <= tracking.len(),
        tracking.len() <= usize::MAX + 1,
    ensures
        dependents(tracking, sid, k).contains(e as usize) && 0 <= e <= usize::MAX <==> (0 <= e < k
            && tracking[e].contains(sid)),
    decreases k,
{
    if k > 0 {
        lemma_dependents_contains(tracking, sid, k - 1, e);
        let rest = dependents(tracking, sid, k - 1);
        if tracking[k - 1].contains(sid) {
            let d = rest.push((k - 1) as usize);
            if d.contains(e as usize) && 0 <= e <= usize::MAX {
                let w = choose|w: int| 0 <= w < d.len() && d[w] == e as usize;
                if w < rest.len() {
                    assert(rest[w] == e as usize);
                }
            }
            if 0 <= e < k && tracking[e].contains(sid) {
                if e == k - 1 {
                    assert(d[rest.len() as int] == e as usize);
                } else {
                    let w = choose|w: int| 0 <= w < rest.len() && rest[w] == e as usize;
                    assert(d[w] == e as usize);
                }
            }
        }
    } else {
        if dependents(tracking, sid, k).contains(e as usize) {
            let w = choose|w: int| 0 <= w < dependents(tracking, sid, k).len() && dependents(tracking, sid, k)[w] == e as usize;
        }
    }
}

/// An effect depends on a signal exactly when its last tracked run read it.
pub proof fn lemma_dependents_are_readers(s: ContextState, sid: usize, e: EffectId)
    requires
        s.tracking.len() <= usize::MAX + 1,
    ensures
        dependents(s.tracking, sid, s.tracking.len() as int).contains(e) <==> (e < s.tracking.len()
            && s.tracking[e as int].contains(sid)),
{
    lemma_dependents_contains(s.tracking, sid, s.tracking.len() as int, e as int);
}

/// A signal read during a tracked run of effect `e` makes `e` depend on it.
pub proof fn lemma_read_registers_dependency(s: ContextState, e: EffectId, sid: usize)
    requires
        e < usize::MAX,
        s.tracking.len() <= usize::MAX,
    ensures
        ({
            let s2 = state_after_track_signal(state_after_track_effect(s, e), sid);
            dependents(s2.tracking, sid, s2.tracking.len() as int).contains(e)
        }),
{
    let s1 = state_after_track_effect(s, e);
    let s2 = state_after_track_signal(s1, sid);
    assert(s1.tracking[e as int] == Seq::<usize>::empty());
    assert(!s1.tracking[e as int].contains(sid));
    assert(s2.tracking[e as int] == Seq::<usize>::empty().push(sid));
    assert(s2.tracking[e as int][0] == sid);
    lemma_dependents_are_readers(s2, sid, e);
}

/// Starting a tracked run of effect `e` forgets all of its dependencies.
pub proof fn lemma_rerun_forgets_dependencies(s: ContextState, e: EffectId, sid: usize)
    requires
        e < usize::MAX,
        s.tracking.len() <= usize::MAX,
    ensures
        ({
            let s1 = state_after_track_effect(s, e);
            !dependents(s1.tracking, sid, s1.tracking.len() as int).contains(e)
        }),
{
    let s1 = state_after_track_effect(s, e);
    lemma_dependents_are_readers(s1, sid, e);
}

/// A signal change re-runs exactly the registered effects that read it
/// during their last tracked run.
pub proof fn lemma_trigger_runs_registered_readers(s: ContextState, sid: usize, e: EffectId)
    requires
        s.tracking.len() <= usize::MAX + 1,
    ensures
        triggered(s, sid).contains(e) <==> (e < s.effect_count && e < s.tracking.len()
            && s.tracking[e as int].contains(sid)),
{
    let deps = dependents(s.tracking, sid, s.tracking.len() as int);
    lemma_registered_contains(deps, s.effect_count, deps.len() as int, e);
    assert(deps.take(deps.len() as int) =~= deps);
    lemma_dependents_are_readers(s, sid, e);
}

/// A write re-runs its readers: once a registered effect has read a signal
/// during a tracked run, a change of that signal reports the effect.
pub proof fn lemma_write_reruns_reader(s: ContextState, e: EffectId, sid: usize)
    requires
        e < s.effect_count,
        e < usize::MAX,
        s.tracking.len() <= usize::MAX,
    ensures
        triggered(state_after_track_signal(state_after_track_effect(s, e), sid), sid).contains(e),
{
    let s2 = state_after_track_signal(state_after_track_effect(s, e), sid);
    lemma_read_registers_dependency(s, e, sid);
    assert(s2.tracking.len() <= usize::MAX + 1);
    lemma_dependents_are_readers(s2, sid, e);
    lemma_trigger_runs_registered_readers(s2, sid, e);
}

proof fn lemma_track_signals_keeps(s: ContextState, sids: Seq<usize>, e: EffectId, x: usize)
    requires
        s.current == Some(e),
        e < s.tracking.len(),
    ensures
        state_after_track_signals(s, sids).current == Some(e),
        state_after_track_signals(s, sids).tracking.len() == s.tracking.len(),
        s.tracking[e as int].contains(x) ==> state_after_track_signals(s, sids).tracking[e as int].contains(x),
        sids.contains(x) ==> state_after_track_signals(s, sids).tracking[e as int].contains(x),
    decreases sids.len(),
{
    if sids.len() > 0 {
        let d = sids.drop_last();
        lemma_track_signals_keeps(s, d, e, x);
        let t = state_after_track_signals(s, d);
        let sid = sids.last();
        let t2 = state_after_track_signal(t, sid);
        if t.tracking[e as int].contains(x) {
            let w = choose|w: int| 0 <= w < t.tracking[e as int].len() && t.tracking[e as int][w] == x;
            if !t.tracking[e as int].contains(sid) {
                assert(t2.tracking[e as int][w] == x);
            }
        }
        if sid == x && !t.tracking[e as int].contains(sid) {
            assert(t2.tracking[e as int][t.tracking[e as int].len() as int] == x);
        }
        if sids.contains(x) && !d.contains(x) {
            let w = choose|w: int| 0 <= w < sids.len() && sids[w] == x;
            if w < d.len() {
                assert(d[w] == x);
            }
        }
    }
}

/// Reading a computed value subscribes the reader to its inputs: when
/// effect `e` is being tracked and reads a computed value whose recomputing
/// effect `source` read signal `sid`, `e` then depends on `sid`.
pub proof fn lemma_computed_read_registers_inputs(s: ContextState, e: EffectId, source: EffectId, sid: usize)
    requires
        s.current == Some(e),
        e < s.tracking.len(),
        s.tracking.len() <= usize::MAX + 1,
        inputs(s, source).contains(sid),
    ensures
        ({
            let s2 = state_after_track_signals(s, inputs(s, source));
            dependents(s2.tracking, sid, s2.tracking.len() as int).contains(e)
        }),
{
    let s2 = state_after_track_signals(s, inputs(s, source));
    lemma_track_signals_keeps(s, inputs(s, source), e, sid);
    lemma_dependents_are_readers(s2, sid, e);
}

proof fn lemma_registered_contains(deps: Seq<EffectId>, count: nat, k: int, e: EffectId)
    requires
        0 <= k <= deps.len(),
    ensures
        registered(deps, count, k).contains(e) <==> (e < count && deps.take(k).contains(e)),
    decreases k,
{
    if k > 0 {
        lemma_registered_contains(deps, count, k - 1, e);
        let rest = registered(deps, count, k - 1);
        let t0 = deps.take(k - 1);
        let t1 = deps.take(k);
        assert(t1 =~= t0.push(deps[k - 1]));
        if t1.contains(e) {
            let w = choose|w: int| 0 <= w < t1.len() && t1[w] == e;
            if w < k - 1 {
                assert(t0[w] == e);
            }
        }
        if t0.contains(e) {
            let w = choose|w: int| 0 <= w < t0.len() && t0[w] == e;
            assert(t1[w] == e);
        }
        if deps[k - 1] < count {
            let r = rest.push(deps[k - 1]);
            if r.contains(e) {
                let w = choose|w: int| 0 <= w < r.len() && r[w] == e;
                if w < rest.len() {
                    assert(rest[w] == e);
                }
            }
            if rest.contains(e) {
                let w = choose|w: int| 0 <= w < rest.len() && rest[w] == e;
                assert(r[w] == e);
            }
            assert(r[rest.len() as int] == deps[k - 1]);
            assert(t1[k - 1] == deps[k - 1]);
        }
    } else {
        assert(deps.take(0) =~= Seq::<EffectId>::empty());
    }
}

/// No effect records a read twice.
pub open spec fn reads_recorded_once(s: ContextState) -> bool {
    forall|e: int, a: int, b: int|
        #![trigger s.tracking[e][a], s.tracking[e][b]]
        0 <= e < s.tracking.len() && 0 <= a < b < s.tracking[e].len() ==> s.tracking[e][a]
            != s.tracking[e][b]
}

/// Tracked runs and signal reads record each read at most once.
pub proof fn lemma_reads_recorded_once(s: ContextState, e: EffectId, sid: usize)
    requires
        reads_recorded_once(s),
    ensures
        reads_recorded_once(state_after_track_effect(s, e)),
        reads_recorded_once(state_after_track_signal(s, sid)),
{
    let s1 = state_after_track_effect(s, e);
    assert forall|x: int, a: int, b: int|
        #![trigger s1.tracking[x][a], s1.tracking[x][b]]
        0 <= x < s1.tracking.len() && 0 <= a < b < s1.tracking[x].len() implies s1.tracking[x][a]
            != s1.tracking[x][b] by {
        assert(x != e && x < s.tracking.len());
        assert(s.tracking[x][a] != s.tracking[x][b]);
    }
    let s2 = state_after_track_signal(s, sid);
    match s.current {
        Some(c) => if c < s.tracking.len() && !s.tracking[c as int].contains(sid) {
            assert forall|x: int, a: int, b: int|
                #![trigger s2.tracking[x][a], s2.tracking[x][b]]
                0 <= x < s2.tracking.len() && 0 <= a < b < s2.tracking[x].len() implies s2.tracking[x][a]
                    != s2.tracking[x][b] by {
                if x == c {
                    let t = s.tracking[x];
                    if b == t.len() {
                        assert(s2.tracking[x][a] == t[a]);
                        assert(s2.tracking[x][b] == sid);
                    } else {
                        assert(t[a] != t[b]);
                    }
                } else {
                    assert(s.tracking[x][a] != s.tracking[x][b]);
                }
            }
        },
        None => {},
    }
}

/// Whether `v` holds `x`.
fn vec_contains(v: &Vec<usize>, x: usize) -> (b: bool)
    ensures
        b == v@.contains(x),
{
    let mut i: usize = 0;
    while i < v.len()
        invariant
            i <= v@.len(),
            forall|j: int| 0 <= j < i ==> v@[j] != x,
        decreases v@.len() - i,
    {
        if v[i] == x {
            assert(v@[i as int] == x);
            return true;
        }
        i = i + 1;
    }
    false
}

} // verus!
