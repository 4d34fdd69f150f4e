//! What listener patching guarantees: no stored listener is forgotten, and
//! every event of the new element ends up with a listener.

use vstd::prelude::*;

use super::patch::{closure_pos, handler_lookup, listener_plan, new_events_phase, old_events_phase, ListenerState};
use super::mount::listener_entries;
use super::{events_view, DomOp, EventHandler, ListenerId, NodeId, VElement};

verus! {

/// No two of the events share a name.
pub open spec fn unique_event_names(events: Seq<(String, EventHandler)>) -> bool {
    forall|i: int, j: int| 0 <= i < j < events.len() ==> #[trigger] events[i].0@ != #[trigger] events[j].0@
}

/// No two stored listeners share an event name.
pub open spec fn unique_listener_names(cl: Seq<(String, ListenerId)>) -> bool {
    forall|i: int, j: int| 0 <= i < j < cl.len() ==> #[trigger] cl[i].0@ != #[trigger] cl[j].0@
}

/// Some event among the first `k` is named `name`.
pub open spec fn named_among(events: Seq<(String, EventHandler)>, name: Seq<char>, k: int) -> bool {
    exists|i: int| 0 <= i < k && i < events.len() && #[trigger] events[i].0@ == name
}

/// Listener `l` is among the kept listeners.
pub open spec fn keeps(kept: Seq<(String, ListenerId)>, l: ListenerId) -> bool {
    exists|q: int| 0 <= q < kept.len() && #[trigger] kept[q].1 == l
}

/// Some kept listener is for the event `name`.
pub open spec fn keeps_event(kept: Seq<(String, ListenerId)>, name: Seq<char>) -> bool {
    exists|q: int| 0 <= q < kept.len() && #[trigger] kept[q].0@ == name
}

/// The operations detach listener `l` from `node`.
pub open spec fn removes(ops: Seq<DomOp>, node: NodeId, l: ListenerId) -> bool {
    exists|r: int|
        0 <= r < ops.len() && (#[trigger] ops[r] matches DomOp::RemoveListener { node: n, listener: x, .. } && n
            == node && x == l)
}

/// Some stored listener is for the event `name`.
pub open spec fn has_listener(cl: Seq<(String, ListenerId)>, name: Seq<char>) -> bool {
    exists|p: int| 0 <= p < cl.len() && #[trigger] cl[p].0@ == name
}

/// Every event has a stored listener.
pub open spec fn events_have_listeners(cl: Seq<(String, ListenerId)>, events: Seq<(String, EventHandler)>) -> bool {
    forall|k: int| 0 <= k < events.len() ==> has_listener(cl, #[trigger] events[k].0@)
}

/// Every stored listener is for one of the element's events.
pub open spec fn listeners_for_events(cl: Seq<(String, ListenerId)>, events: Seq<(String, EventHandler)>) -> bool {
    forall|p: int| 0 <= p < cl.len() ==> named_among(events, #[trigger] cl[p].0@, events.len() as int)
}

// ---------------------------------------------------------------------------
// Lookups
// ---------------------------------------------------------------------------

proof fn lemma_handler_lookup_some(events: Seq<(String, EventHandler)>, name: Seq<char>)
    ensures
        handler_lookup(events, name) is Some <==> named_among(events, name, events.len() as int),
    decreases events.len(),
{
    if events.len() > 0 {
        let d = events.drop_last();
        lemma_handler_lookup_some(d, name);
        if named_among(d, name, d.len() as int) {
            let i = choose|i: int| 0 <= i < d.len() && i < d.len() && #[trigger] d[i].0@ == name;
            assert(events[i].0@ == name);
        }
        if named_among(events, name, events.len() as int) && events.last().0@ != name {
            let i = choose|i: int| 0 <= i < events.len() && i < events.len() && #[trigger] events[i].0@ == name;
            assert(d[i].0@ == name);
        }
        if events.last().0@ == name {
            assert(events[events.len() - 1].0@ == name);
        }
    }
}

proof fn lemma_closure_pos(cl: Seq<(String, ListenerId)>, name: Seq<char>, i: int)
    requires
        0 <= i,
    ensures
        closure_pos(cl, name, i) matches Some(a) ==> i <= a < cl.len() && cl[a].0@ == name,
        (exists|a: int| i <= a < cl.len() && #[trigger] cl[a].0@ == name) ==> closure_pos(cl, name, i) is Some,
    decreases cl.len() - i,
{
    if i < cl.len() {
        lemma_closure_pos(cl, name, i + 1);
        if cl[i].0@ != name {
            if exists|a: int| i <= a < cl.len() && #[trigger] cl[a].0@ == name {
                let a = choose|a: int| i <= a < cl.len() && #[trigger] cl[a].0@ == name;
                assert(a != i);
                assert(i + 1 <= a);
            }
        }
    }
}

// ---------------------------------------------------------------------------
// The old events
// ---------------------------------------------------------------------------

/// `e` is one of the stored listeners whose event is not among the first `k`.
spec fn unmet_stored(
    old_events: Seq<(String, EventHandler)>,
    closures: Seq<(String, ListenerId)>,
    k: int,
    e: (String, ListenerId),
) -> bool {
    exists|p: int| 0 <= p < closures.len() && closures[p] == e && !named_among(old_events, closures[p].0@, k)
}

/// What holds after the first `k` old events: each listener whose event was
/// met is kept or detached; the others are still stored, and the stored ones
/// are stored listeners whose event was not met, with distinct names.
spec fn old_phase_inv(
    old_events: Seq<(String, EventHandler)>,
    closures: Seq<(String, ListenerId)>,
    node: NodeId,
    k: int,
    st: ListenerState,
) -> bool {
    &&& forall|p: int|
        0 <= p < closures.len() ==> if named_among(old_events, #[trigger] closures[p].0@, k) {
            keeps(st.1, closures[p].1) || removes(st.2, node, closures[p].1)
        } else {
            st.0.contains(closures[p])
        }
    &&& forall|a: int|
        0 <= a < st.0.len() ==> #[trigger] unmet_stored(old_events, closures, k, st.0[a])
    &&& unique_listener_names(st.0)
}

/// `a` begins with `b`.
spec fn extends<A>(a: Seq<A>, b: Seq<A>) -> bool {
    b.len() <= a.len() && forall|q: int| 0 <= q < b.len() ==> #[trigger] a[q] == b[q]
}

/// One step of the old-events phase, described without its cases.
proof fn lemma_old_step_facts(
    old_events: Seq<(String, EventHandler)>,
    new_events: Seq<(String, EventHandler)>,
    closures: Seq<(String, ListenerId)>,
    node: NodeId,
    next: u64,
    k: int,
)
    requires
        1 <= k <= old_events.len(),
    ensures
        ({
            let prev = old_events_phase(old_events, new_events, closures, node, next, k - 1);
            let st = old_events_phase(old_events, new_events, closures, node, next, k);
            let name = old_events[k - 1].0@;
            &&& match closure_pos(prev.0, name, 0) {
                Some(a) => {
                    &&& 0 <= a < prev.0.len()
                    &&& prev.0[a].0@ == name
                    &&& st.0 == prev.0.remove(a)
                    &&& keeps(st.1, prev.0[a].1) || removes(st.2, node, prev.0[a].1)
                },
                None => {
                    &&& st.0 == prev.0
                    &&& forall|b: int| 0 <= b < prev.0.len() ==> #[trigger] prev.0[b].0@ != name
                },
            }
            &&& extends(st.1, prev.1)
            &&& extends(st.2, prev.2)
            &&& handler_lookup(new_events, name) is Some ==> keeps_event(st.1, name)
            &&& st.1 == prev.1 || (handler_lookup(new_events, name) is Some && st.1.len() == prev.1.len() + 1
                && st.1.last().0 == old_events[k - 1].0)
        }),
{
    let prev = old_events_phase(old_events, new_events, closures, node, next, k - 1);
    let st = old_events_phase(old_events, new_events, closures, node, next, k);
    let nm = old_events[k - 1].0;
    let name = nm@;
    lemma_closure_pos(prev.0, name, 0);
    match closure_pos(prev.0, name, 0) {
        Some(a) => {
            let l = prev.0[a].1;
            if st.1.len() > prev.1.len() && st.1.last().1 == l {
                assert(st.1[st.1.len() - 1].1 == l);
            } else {
                let op = DomOp::RemoveListener { node, event: nm, listener: l };
                assert(st.2[prev.2.len() as int] == op);
            }
        },
        None => {
            assert forall|b: int| 0 <= b < prev.0.len() implies #[trigger] prev.0[b].0@ != name by {
                if prev.0[b].0@ == name {
                    assert(exists|a: int| 0 <= a < prev.0.len() && #[trigger] prev.0[a].0@ == name);
                }
            }
        },
    }
    if handler_lookup(new_events, name) is Some {
        assert(st.1[st.1.len() - 1].0@ == name);
    }
}

/// The invariant of the old-events phase survives one step.
proof fn lemma_old_step_inv(
    old_events: Seq<(String, EventHandler)>,
    closures: Seq<(String, ListenerId)>,
    node: NodeId,
    k: int,
    prev: ListenerState,
    st: ListenerState,
    pos: Option<int>,
)
    requires
        1 <= k <= old_events.len(),
        unique_event_names(old_events),
        unique_listener_names(closures),
        old_phase_inv(old_events, closures, node, k - 1, prev),
        extends(st.1, prev.1),
        extends(st.2, prev.2),
        match pos {
            Some(a) => {
                &&& 0 <= a < prev.0.len()
                &&& prev.0[a].0@ == old_events[k - 1].0@
                &&& st.0 == prev.0.remove(a)
                &&& keeps(st.1, prev.0[a].1) || removes(st.2, node, prev.0[a].1)
            },
            None => {
                &&& st.0 == prev.0
                &&& forall|b: int| 0 <= b < prev.0.len() ==> #[trigger] prev.0[b].0@ != old_events[k - 1].0@
            },
        },
    ensures
        old_phase_inv(old_events, closures, node, k, st),
{
    let name = old_events[k - 1].0@;
    let cl = prev.0;
    // Meeting event k - 1 changes the status of the listeners named like it only.
    assert forall|p: int| 0 <= p < closures.len() implies (named_among(
        old_events,
        #[trigger] closures[p].0@,
        k,
    ) <==> (named_among(old_events, closures[p].0@, k - 1) || closures[p].0@ == name)) by {
        if named_among(old_events, closures[p].0@, k) && closures[p].0@ != name {
            let i = choose|i: int| 0 <= i < k && i < old_events.len() && #[trigger] old_events[i].0@ == closures[p].0@;
            assert(i != k - 1);
        }
        if closures[p].0@ == name {
            assert(old_events[k - 1].0@ == closures[p].0@);
        }
    }
    // Kept and removed listeners stay so.
    assert forall|l: ListenerId| keeps(prev.1, l) implies keeps(st.1, l) by {
        let q = choose|q: int| 0 <= q < prev.1.len() && #[trigger] prev.1[q].1 == l;
        assert(st.1[q] == prev.1[q]);
    }
    assert forall|l: ListenerId| removes(prev.2, node, l) implies removes(st.2, node, l) by {
        let r = choose|r: int|
            0 <= r < prev.2.len() && (#[trigger] prev.2[r] matches DomOp::RemoveListener { node: n, listener: x, .. }
                && n == node && x == l);
        assert(st.2[r] == prev.2[r]);
    }
    match pos {
        Some(a) => {
            assert(unmet_stored(old_events, closures, k - 1, cl[a]));
            let p0 = choose|p: int| 0 <= p < closures.len() && closures[p] == #[trigger] cl[a] && !named_among(
                old_events,
                closures[p].0@,
                k - 1,
            );
            assert forall|p: int| 0 <= p < closures.len() implies if named_among(
                old_events,
                #[trigger] closures[p].0@,
                k,
            ) {
                keeps(st.1, closures[p].1) || removes(st.2, node, closures[p].1)
            } else {
                st.0.contains(closures[p])
            } by {
                if closures[p].0@ == name {
                    if p != p0 {
                        if p < p0 {
                            assert(closures[p].0@ != closures[p0].0@);
                        } else {
                            assert(closures[p0].0@ != closures[p].0@);
                        }
                    }
                } else if !named_among(old_events, closures[p].0@, k - 1) {
                    let b = choose|b: int| 0 <= b < cl.len() && cl[b] == closures[p];
                    assert(b != a);
                    if b < a {
                        assert(st.0[b] == closures[p]);
                    } else {
                        assert(st.0[b - 1] == closures[p]);
                    }
                }
            }
            assert forall|x: int| 0 <= x < st.0.len() implies #[trigger] unmet_stored(old_events, closures, k, st.0[x]) by {
                let b = if x < a { x } else { x + 1 };
                assert(st.0[x] == cl[b]);
                assert(unmet_stored(old_events, closures, k - 1, cl[b]));
                let p = choose|p: int| 0 <= p < closures.len() && closures[p] == #[trigger] cl[b] && !named_among(
                    old_events,
                    closures[p].0@,
                    k - 1,
                );
                if b < a {
                    assert(cl[b].0@ != cl[a].0@);
                } else {
                    assert(cl[a].0@ != cl[b].0@);
                }
            }
            assert forall|x: int, y: int| 0 <= x < y < st.0.len() implies #[trigger] st.0[x].0@
                != #[trigger] st.0[y].0@ by {
                let bx = if x < a { x } else { x + 1 };
                let by_ = if y < a { y } else { y + 1 };
                assert(st.0[x] == cl[bx]);
                assert(st.0[y] == cl[by_]);
                assert(cl[bx].0@ != cl[by_].0@);
            }
        },
        None => {
            assert forall|p: int| 0 <= p < closures.len() implies if named_among(
                old_events,
                #[trigger] closures[p].0@,
                k,
            ) {
                keeps(st.1, closures[p].1) || removes(st.2, node, closures[p].1)
            } else {
                st.0.contains(closures[p])
            } by {
                if closures[p].0@ == name && !named_among(old_events, closures[p].0@, k - 1) {
                    let b = choose|b: int| 0 <= b < cl.len() && cl[b] == closures[p];
                    assert(cl[b].0@ != name);
                }
            }
            assert forall|x: int| 0 <= x < st.0.len() implies #[trigger] unmet_stored(old_events, closures, k, st.0[x]) by {
                assert(unmet_stored(old_events, closures, k - 1, cl[x]));
                let p = choose|p: int| 0 <= p < closures.len() && closures[p] == #[trigger] cl[x] && !named_among(
                    old_events,
                    closures[p].0@,
                    k - 1,
                );
                assert(cl[x].0@ != name);
            }
        },
    }
}

proof fn lemma_old_phase(
    old_events: Seq<(String, EventHandler)>,
    new_events: Seq<(String, EventHandler)>,
    closures: Seq<(String, ListenerId)>,
    node: NodeId,
    next: u64,
    k: int,
)
    requires
        0 <= k <= old_events.len(),
        unique_event_names(old_events),
        unique_listener_names(closures),
    ensures
        old_phase_inv(old_events, closures, node, k, old_events_phase(old_events, new_events, closures, node, next, k)),
        forall|i: int|
            0 <= i < k && handler_lookup(new_events, #[trigger] old_events[i].0@) is Some ==> keeps_event(
                old_events_phase(old_events, new_events, closures, node, next, k).1,
                old_events[i].0@,
            ),
    decreases k,
{
    let st = old_events_phase(old_events, new_events, closures, node, next, k);
    if k == 0 {
        assert forall|a: int| 0 <= a < st.0.len() implies #[trigger] unmet_stored(old_events, closures, k, st.0[a]) by {
            assert(closures[a] == st.0[a]);
        }
        assert forall|p: int| 0 <= p < closures.len() implies st.0.contains(#[trigger] closures[p]) by {
            assert(st.0[p] == closures[p]);
        }
    } else {
        lemma_old_phase(old_events, new_events, closures, node, next, k - 1);
        let prev = old_events_phase(old_events, new_events, closures, node, next, k - 1);
        lemma_old_step_facts(old_events, new_events, closures, node, next, k);
        lemma_old_step_inv(
            old_events,
            closures,
            node,
            k,
            prev,
            st,
            closure_pos(prev.0, old_events[k - 1].0@, 0),
        );
        assert forall|i: int|
            0 <= i < k && handler_lookup(new_events, #[trigger] old_events[i].0@) is Some implies keeps_event(
                st.1,
                old_events[i].0@,
            ) by {
            if i < k - 1 {
                let q = choose|q: int| 0 <= q < prev.1.len() && #[trigger] prev.1[q].0@ == old_events[i].0@;
                assert(st.1[q] == prev.1[q]);
            }
        }
    }
}

/// The listeners the old-events phase keeps have distinct names, each that
/// of one of the first `k` old events that the new element also has.
proof fn lemma_old_kept_names(
    old_events: Seq<(String, EventHandler)>,
    new_events: Seq<(String, EventHandler)>,
    closures: Seq<(String, ListenerId)>,
    node: NodeId,
    next: u64,
    k: int,
)
    requires
        0 <= k <= old_events.len(),
        unique_event_names(old_events),
    ensures
        ({
            let kept = old_events_phase(old_events, new_events, closures, node, next, k).1;
            &&& unique_listener_names(kept)
            &&& forall|q: int|
                0 <= q < kept.len() ==> named_among(old_events, #[trigger] kept[q].0@, k) && handler_lookup(
                    new_events,
                    kept[q].0@,
                ) is Some
        }),
    decreases k,
{
    if k > 0 {
        lemma_old_kept_names(old_events, new_events, closures, node, next, k - 1);
        lemma_old_step_facts(old_events, new_events, closures, node, next, k);
        let prev = old_events_phase(old_events, new_events, closures, node, next, k - 1).1;
        let kept = old_events_phase(old_events, new_events, closures, node, next, k).1;
        let name = old_events[k - 1].0@;
        assert forall|q: int|
            0 <= q < kept.len() implies named_among(old_events, #[trigger] kept[q].0@, k) && handler_lookup(
                new_events,
                kept[q].0@,
            ) is Some by {
            if q < prev.len() {
                assert(kept[q] == prev[q]);
                assert(named_among(old_events, prev[q].0@, k - 1));
                let i = choose|i: int| 0 <= i < k - 1 && i < old_events.len() && #[trigger] old_events[i].0@ == prev[q].0@;
                assert(old_events[i].0@ == kept[q].0@);
            } else {
                assert(old_events[k - 1].0@ == kept[q].0@);
            }
        }
        assert forall|x: int, y: int| 0 <= x < y < kept.len() implies #[trigger] kept[x].0@ != #[trigger] kept[y].0@ by {
            assert(kept[x] == prev[x]);
            if y < prev.len() {
                assert(kept[y] == prev[y]);
            } else {
                assert(named_among(old_events, prev[x].0@, k - 1));
                let i = choose|i: int| 0 <= i < k - 1 && i < old_events.len() && #[trigger] old_events[i].0@ == prev[x].0@;
                assert(old_events[i].0@ != old_events[k - 1].0@);
            }
        }
    }
}

// ---------------------------------------------------------------------------
// The new events
// ---------------------------------------------------------------------------

/// The listeners the new-events phase adds are for new events that the old
/// element lacks, with distinct names; together with the ones kept before,
/// all are for new events and have distinct names.
proof fn lemma_new_kept_names(
    old_events: Seq<(String, EventHandler)>,
    new_events: Seq<(String, EventHandler)>,
    node: NodeId,
    start: (Seq<(String, ListenerId)>, Seq<DomOp>, u64),
    k: int,
)
    requires
        0 <= k <= new_events.len(),
        unique_event_names(new_events),
        unique_listener_names(start.0),
        forall|q: int|
            0 <= q < start.0.len() ==> named_among(old_events, #[trigger] start.0[q].0@, old_events.len() as int)
                && named_among(new_events, start.0[q].0@, new_events.len() as int),
    ensures
        ({
            let r = new_events_phase(old_events, new_events, node, start, k).0;
            &&& unique_listener_names(r)
            &&& r.len() >= start.0.len()
            &&& forall|q: int| 0 <= q < start.0.len() ==> #[trigger] r[q] == start.0[q]
            &&& forall|q: int|
                start.0.len() <= q < r.len() ==> named_among(new_events, #[trigger] r[q].0@, k) && !named_among(
                    old_events,
                    r[q].0@,
                    old_events.len() as int,
                )
        }),
    decreases k,
{
    if k > 0 {
        lemma_new_kept_names(old_events, new_events, node, start, k - 1);
        let prev = new_events_phase(old_events, new_events, node, start, k - 1).0;
        let r = new_events_phase(old_events, new_events, node, start, k).0;
        let name = new_events[k - 1].0@;
        lemma_handler_lookup_some(old_events, name);
        assert forall|q: int| 0 <= q < start.0.len() implies #[trigger] r[q] == start.0[q] by {
            assert(r[q] == prev[q]);
        }
        assert forall|q: int|
            start.0.len() <= q < r.len() implies named_among(new_events, #[trigger] r[q].0@, k) && !named_among(
                old_events,
                r[q].0@,
                old_events.len() as int,
            ) by {
            if q < prev.len() {
                assert(r[q] == prev[q]);
                let j = choose|j: int| 0 <= j < k - 1 && j < new_events.len() && #[trigger] new_events[j].0@ == prev[q].0@;
                assert(new_events[j].0@ == r[q].0@);
            } else {
                assert(new_events[k - 1].0@ == r[q].0@);
            }
        }
        assert forall|x: int, y: int| 0 <= x < y < r.len() implies #[trigger] r[x].0@ != #[trigger] r[y].0@ by {
            assert(r[x] == prev[x]);
            if y < prev.len() {
                assert(r[y] == prev[y]);
            } else if x < start.0.len() {
                assert(named_among(old_events, start.0[x].0@, old_events.len() as int));
            } else {
                let j = choose|j: int| 0 <= j < k - 1 && j < new_events.len() && #[trigger] new_events[j].0@ == prev[x].0@;
                assert(new_events[j].0@ != new_events[k - 1].0@);
            }
        }
    }
}

proof fn lemma_new_phase(
    old_events: Seq<(String, EventHandler)>,
    new_events: Seq<(String, EventHandler)>,
    node: NodeId,
    start: (Seq<(String, ListenerId)>, Seq<DomOp>, u64),
    k: int,
)
    requires
        0 <= k <= new_events.len(),
    ensures
        ({
            let r = new_events_phase(old_events, new_events, node, start, k);
            &&& r.0.len() >= start.0.len()
            &&& forall|q: int| 0 <= q < start.0.len() ==> #[trigger] r.0[q] == start.0[q]
            &&& r.1.len() >= start.1.len()
            &&& forall|q: int| 0 <= q < start.1.len() ==> #[trigger] r.1[q] == start.1[q]
            &&& forall|j: int|
                0 <= j < k && handler_lookup(old_events, #[trigger] new_events[j].0@) is None ==> keeps_event(
                    r.0,
                    new_events[j].0@,
                )
        }),
    decreases k,
{
    if k > 0 {
        lemma_new_phase(old_events, new_events, node, start, k - 1);
        let prev = new_events_phase(old_events, new_events, node, start, k - 1);
        let r = new_events_phase(old_events, new_events, node, start, k);
        assert forall|j: int|
            0 <= j < k && handler_lookup(old_events, #[trigger] new_events[j].0@) is None implies keeps_event(
                r.0,
                new_events[j].0@,
            ) by {
            if j < k - 1 {
                let q = choose|q: int| 0 <= q < prev.0.len() && #[trigger] prev.0[q].0@ == new_events[j].0@;
                assert(r.0[q] == prev.0[q]);
            } else {
                assert(r.0[r.0.len() - 1].0@ == new_events[j].0@);
            }
        }
        assert forall|q: int| 0 <= q < start.0.len() implies #[trigger] r.0[q] == start.0[q] by {
            assert(r.0[q] == prev.0[q]);
        }
        assert forall|q: int| 0 <= q < start.1.len() implies #[trigger] r.1[q] == start.1[q] by {
            assert(r.1[q] == prev.1[q]);
        }
    }
}

proof fn lemma_listener_entries(events: Seq<(String, EventHandler)>, first: u64, k: int)
    requires
        0 <= k <= events.len(),
    ensures
        listener_entries(events, first, k).len() == k,
        forall|i: int| 0 <= i < k ==> #[trigger] listener_entries(events, first, k)[i].0 == events[i].0,
    decreases k,
{
    if k > 0 {
        lemma_listener_entries(events, first, k - 1);
    }
}

/// A mounted element qualifies: when its events have distinct names, the
/// listeners mounting records have distinct names, each for one of its
/// events, and each event has one.
pub proof fn lemma_mounted_listeners_qualify(events: Seq<(String, EventHandler)>, first: u64)
    requires
        unique_event_names(events),
    ensures
        unique_listener_names(listener_entries(events, first, events.len() as int)),
        listeners_for_events(listener_entries(events, first, events.len() as int), events),
        events_have_listeners(listener_entries(events, first, events.len() as int), events),
{
    let n = events.len() as int;
    let cl = listener_entries(events, first, n);
    lemma_listener_entries(events, first, n);
    assert forall|k: int| 0 <= k < n implies has_listener(cl, #[trigger] events[k].0@) by {
        assert(cl[k].0@ == events[k].0@);
    }
    assert forall|i: int, j: int| 0 <= i < j < cl.len() implies #[trigger] cl[i].0@ != #[trigger] cl[j].0@ by {
        assert(events[i].0@ != events[j].0@);
    }
    assert forall|p: int| 0 <= p < cl.len() implies named_among(events, #[trigger] cl[p].0@, n) by {
        assert(events[p].0@ == cl[p].0@);
    }
}

// ---------------------------------------------------------------------------
// The law
// ---------------------------------------------------------------------------

/// Patching keeps the listeners in that shape: when the new element's events
/// have distinct names too, the listeners it keeps have distinct names, each
/// for one of its events.
pub proof fn lemma_patched_listeners_qualify(old: VElement, new: VElement, node: NodeId, next: u64)
    requires
        unique_event_names(old.events@),
        unique_event_names(new.events@),
    ensures
        unique_listener_names(listener_plan(old, new, node, next).0),
        listeners_for_events(listener_plan(old, new, node, next).0, new.events@),
{
    let oe = old.events@;
    let ne = new.events@;
    let n = oe.len() as int;
    let st = old_events_phase(oe, ne, old.listener_closures@, node, next, n);
    lemma_old_kept_names(oe, ne, old.listener_closures@, node, next, n);
    assert forall|q: int| 0 <= q < st.1.len() implies named_among(oe, #[trigger] st.1[q].0@, n) && named_among(
        ne,
        st.1[q].0@,
        ne.len() as int,
    ) by {
        lemma_handler_lookup_some(ne, st.1[q].0@);
    }
    let start = (st.1, st.2, st.3);
    lemma_new_kept_names(oe, ne, node, start, ne.len() as int);
    let r = listener_plan(old, new, node, next).0;
    assert forall|q: int| 0 <= q < r.len() implies named_among(ne, #[trigger] r[q].0@, ne.len() as int) by {
        if q < st.1.len() {
            assert(r[q] == st.1[q]);
        }
    }
}

/// Event listeners are properly cleaned up: when the old element's events
/// have distinct names and each of its stored listeners is for one of them
/// (as mounting and patching leave it), patching keeps or detaches every
/// stored listener (none is left attached and forgotten), and every event of
/// the new element ends up with a kept listener.
pub proof fn lemma_listeners_cleaned_up(old: VElement, new: VElement, node: NodeId, next: u64)
    requires
        unique_event_names(old.events@),
        unique_listener_names(old.listener_closures@),
        listeners_for_events(old.listener_closures@, old.events@),
    ensures
        ({
            let lp = listener_plan(old, new, node, next);
            &&& forall|p: int|
                0 <= p < old.listener_closures@.len() ==> keeps(lp.0, #[trigger] old.listener_closures@[p].1)
                    || removes(lp.1, node, old.listener_closures@[p].1)
            &&& forall|j: int| 0 <= j < new.events@.len() ==> keeps_event(lp.0, #[trigger] new.events@[j].0@)
        }),
{
    let oe = old.events@;
    let ne = new.events@;
    let cl = old.listener_closures@;
    let n = oe.len() as int;
    lemma_old_phase(oe, ne, cl, node, next, n);
    let st = old_events_phase(oe, ne, cl, node, next, n);
    let start = (st.1, st.2, st.3);
    lemma_new_phase(oe, ne, node, start, ne.len() as int);
    let lp = listener_plan(old, new, node, next);
    assert(lp == new_events_phase(oe, ne, node, start, ne.len() as int));
    assert forall|p: int| 0 <= p < cl.len() implies keeps(lp.0, #[trigger] cl[p].1) || removes(
        lp.1,
        node,
        cl[p].1,
    ) by {
        assert(named_among(oe, cl[p].0@, n));
        if keeps(st.1, cl[p].1) {
            let q = choose|q: int| 0 <= q < st.1.len() && #[trigger] st.1[q].1 == cl[p].1;
            assert(lp.0[q] == st.1[q]);
        } else {
            let r = choose|r: int|
                0 <= r < st.2.len() && (#[trigger] st.2[r] matches DomOp::RemoveListener { node: m, listener: x, .. }
                    && m == node && x == cl[p].1);
            assert(lp.1[r] == st.2[r]);
        }
    }
    assert forall|j: int| 0 <= j < ne.len() implies keeps_event(lp.0, #[trigger] ne[j].0@) by {
        lemma_handler_lookup_some(ne, ne[j].0@);
        lemma_handler_lookup_some(oe, ne[j].0@);
        assert(named_among(ne, ne[j].0@, ne.len() as int));
        if handler_lookup(oe, ne[j].0@) is Some {
            let i = choose|i: int| 0 <= i < n && i < oe.len() && #[trigger] oe[i].0@ == ne[j].0@;
            assert(handler_lookup(ne, oe[i].0@) is Some);
            let q = choose|q: int| 0 <= q < st.1.len() && #[trigger] st.1[q].0@ == oe[i].0@;
            assert(lp.0[q] == st.1[q]);
        }
    }
}

// ---------------------------------------------------------------------------
// Unchanged events
// ---------------------------------------------------------------------------

proof fn lemma_handler_lookup_unique(events: Seq<(String, EventHandler)>, i: int)
    requires
        unique_event_names(events),
        0 <= i < events.len(),
    ensures
        handler_lookup(events, events[i].0@) == Some(events[i].1.0),
    decreases events.len(),
{
    let last = events.len() - 1;
    if i < last {
        assert(events[i].0@ != events[last].0@);
        let d = events.drop_last();
        assert forall|x: int, y: int| 0 <= x < y < d.len() implies #[trigger] d[x].0@ != #[trigger] d[y].0@ by {
            assert(events[x].0@ != events[y].0@);
        }
        lemma_handler_lookup_unique(d, i);
    }
}

proof fn lemma_handler_lookup_same_views(a: Seq<(String, EventHandler)>, b: Seq<(String, EventHandler)>, n: Seq<char>)
    requires
        events_view(a) == events_view(b),
    ensures
        handler_lookup(a, n) == handler_lookup(b, n),
    decreases a.len(),
{
    assert(a.len() == events_view(a).len());
    assert(b.len() == events_view(b).len());
    if a.len() > 0 {
        assert(events_view(a)[a.len() - 1] == events_view(b)[b.len() - 1]);
        assert(events_view(a.drop_last()) =~= events_view(b.drop_last())) by {
            assert forall|i: int| 0 <= i < a.len() - 1 implies #[trigger] events_view(a.drop_last())[i]
                == events_view(b.drop_last())[i] by {
                assert(events_view(a)[i] == events_view(b)[i]);
            }
        }
        lemma_handler_lookup_same_views(a.drop_last(), b.drop_last(), n);
    }
}

proof fn lemma_same_old_phase(
    old_events: Seq<(String, EventHandler)>,
    new_events: Seq<(String, EventHandler)>,
    closures: Seq<(String, ListenerId)>,
    node: NodeId,
    next: u64,
    k: int,
)
    requires
        0 <= k <= old_events.len(),
        events_view(old_events) == events_view(new_events),
        unique_event_names(old_events),
        unique_listener_names(closures),
        events_have_listeners(closures, old_events),
    ensures
        old_events_phase(old_events, new_events, closures, node, next, k).2 == Seq::<DomOp>::empty(),
        old_events_phase(old_events, new_events, closures, node, next, k).3 == next,
    decreases k,
{
    if k > 0 {
        lemma_same_old_phase(old_events, new_events, closures, node, next, k - 1);
        lemma_old_phase(old_events, new_events, closures, node, next, k - 1);
        let prev = old_events_phase(old_events, new_events, closures, node, next, k - 1);
        let name = old_events[k - 1].0@;
        lemma_handler_lookup_same_views(old_events, new_events, name);
        lemma_handler_lookup_unique(old_events, k - 1);
        assert(has_listener(closures, name));
        let p = choose|p: int| 0 <= p < closures.len() && #[trigger] closures[p].0@ == name;
        assert(!named_among(old_events, closures[p].0@, k - 1)) by {
            if named_among(old_events, closures[p].0@, k - 1) {
                let i = choose|i: int| 0 <= i < k - 1 && i < old_events.len() && #[trigger] old_events[i].0@ == closures[p].0@;
                assert(old_events[i].0@ != old_events[k - 1].0@);
            }
        }
        assert(prev.0.contains(closures[p]));
        let b = choose|b: int| 0 <= b < prev.0.len() && prev.0[b] == closures[p];
        assert(prev.0[b].0@ == name);
        lemma_closure_pos(prev.0, name, 0);
    }
}

proof fn lemma_same_new_phase(
    old_events: Seq<(String, EventHandler)>,
    new_events: Seq<(String, EventHandler)>,
    node: NodeId,
    start: (Seq<(String, ListenerId)>, Seq<DomOp>, u64),
    k: int,
)
    requires
        0 <= k <= new_events.len(),
        events_view(old_events) == events_view(new_events),
        unique_event_names(old_events),
    ensures
        new_events_phase(old_events, new_events, node, start, k) == start,
    decreases k,
{
    if k > 0 {
        lemma_same_new_phase(old_events, new_events, node, start, k - 1);
        let name = new_events[k - 1].0@;
        assert(old_events.len() == events_view(old_events).len());
        assert(new_events.len() == events_view(new_events).len());
        assert(events_view(old_events)[k - 1] == events_view(new_events)[k - 1]);
        assert(old_events[k - 1].0@ == name);
        lemma_handler_lookup_unique(old_events, k - 1);
    }
}

/// Unchanged events plan no listener changes: when the new element has the
/// same events (names and handlers, in order), and the old element's events
/// have distinct names, each with a stored listener, nothing is attached or
/// detached and no identifier is allocated.
pub proof fn lemma_same_events_no_ops(old: VElement, new: VElement, node: NodeId, next: u64)
    requires
        events_view(old.events@) == events_view(new.events@),
        unique_event_names(old.events@),
        unique_listener_names(old.listener_closures@),
        events_have_listeners(old.listener_closures@, old.events@),
    ensures
        listener_plan(old, new, node, next).1 == Seq::<DomOp>::empty(),
        listener_plan(old, new, node, next).2 == next,
{
    let oe = old.events@;
    let ne = new.events@;
    assert(oe.len() == events_view(oe).len());
    assert(ne.len() == events_view(ne).len());
    lemma_same_old_phase(oe, ne, old.listener_closures@, node, next, oe.len() as int);
    let st = old_events_phase(oe, ne, old.listener_closures@, node, next, oe.len() as int);
    lemma_same_new_phase(oe, ne, node, (st.1, st.2, st.3), ne.len() as int);
}

/// Every listener added on `node` runs the handler that the new element
/// declares for the listener's event.
pub open spec fn adds_declared_handlers(ops: Seq<DomOp>, node: NodeId, events: Seq<(String, EventHandler)>) -> bool {
    forall|i: int|
        0 <= i < ops.len() ==> match #[trigger] ops[i] {
            DomOp::AddListener { node: n, event, handler, .. } => n == node && handler_lookup(events, event@) == Some(
                handler,
            ),
            _ => true,
        }
}

proof fn lemma_adds_push(ops: Seq<DomOp>, op: DomOp, node: NodeId, events: Seq<(String, EventHandler)>)
    requires
        adds_declared_handlers(ops, node, events),
        adds_declared_handlers(seq![op], node, events),
    ensures
        adds_declared_handlers(ops.push(op), node, events),
{
    assert forall|i: int| 0 <= i < ops.push(op).len() implies match #[trigger] ops.push(op)[i] {
        DomOp::AddListener { node: n, event, handler, .. } => n == node && handler_lookup(events, event@) == Some(handler),
        _ => true,
    } by {
        if i < ops.len() {
            assert(ops.push(op)[i] == ops[i]);
        } else {
            assert(ops.push(op)[i] == seq![op][0]);
        }
    }
}

proof fn lemma_old_phase_adds(
    old_events: Seq<(String, EventHandler)>,
    new_events: Seq<(String, EventHandler)>,
    closures: Seq<(String, ListenerId)>,
    node: NodeId,
    next: u64,
    k: int,
)
    ensures
        adds_declared_handlers(old_events_phase(old_events, new_events, closures, node, next, k).2, node, new_events),
    decreases k,
{
    if k > 0 {
        lemma_old_phase_adds(old_events, new_events, closures, node, next, k - 1);
        let st = old_events_phase(old_events, new_events, closures, node, next, k - 1);
        let (cl, kept, ops, id) = st;
        let name = old_events[k - 1].0;
        let pos = closure_pos(cl, name@, 0);
        if let Some(nh) = handler_lookup(new_events, name@) {
            let add = DomOp::AddListener { node, event: name, handler: nh, listener: id };
            assert(adds_declared_handlers(seq![add], node, new_events)) by {
                assert(seq![add][0] == add);
            }
            if let Some(p) = pos {
                let rm = DomOp::RemoveListener { node, event: name, listener: cl[p].1 };
                assert(adds_declared_handlers(seq![rm], node, new_events)) by {
                    assert(seq![rm][0] == rm);
                }
                lemma_adds_push(ops, rm, node, new_events);
                lemma_adds_push(ops.push(rm), add, node, new_events);
            }
            lemma_adds_push(ops, add, node, new_events);
        } else if let Some(p) = pos {
            let rm = DomOp::RemoveListener { node, event: name, listener: cl[p].1 };
            assert(adds_declared_handlers(seq![rm], node, new_events)) by {
                assert(seq![rm][0] == rm);
            }
            lemma_adds_push(ops, rm, node, new_events);
        }
    }
}

proof fn lemma_new_phase_adds(
    old_events: Seq<(String, EventHandler)>,
    new_events: Seq<(String, EventHandler)>,
    node: NodeId,
    start: (Seq<(String, ListenerId)>, Seq<DomOp>, u64),
    k: int,
)
    requires
        unique_event_names(new_events),
        k <= new_events.len(),
        adds_declared_handlers(start.1, node, new_events),
    ensures
        adds_declared_handlers(new_events_phase(old_events, new_events, node, start, k).1, node, new_events),
    decreases k,
{
    if k > 0 {
        lemma_new_phase_adds(old_events, new_events, node, start, k - 1);
        let (kept, ops, id) = new_events_phase(old_events, new_events, node, start, k - 1);
        let name = new_events[k - 1].0;
        if handler_lookup(old_events, name@) is None {
            let add = DomOp::AddListener { node, event: name, handler: new_events[k - 1].1.0, listener: id };
            lemma_handler_lookup_unique(new_events, k - 1);
            assert(adds_declared_handlers(seq![add], node, new_events)) by {
                assert(seq![add][0] == add);
            }
            lemma_adds_push(ops, add, node, new_events);
        }
    }
}

/// Listener patching attaches the right handlers: when the new element's
/// events have distinct names, every listener the patch adds is attached to
/// the patched node and runs the handler the new element declares for that
/// listener's event.
pub proof fn lemma_added_listeners_run_declared_handlers(old: VElement, new: VElement, node: NodeId, next: u64)
    requires
        unique_event_names(new.events@),
    ensures
        adds_declared_handlers(listener_plan(old, new, node, next).1, node, new.events@),
{
    let oe = old.events@;
    let ne = new.events@;
    lemma_old_phase_adds(oe, ne, old.listener_closures@, node, next, oe.len() as int);
    let st = old_events_phase(oe, ne, old.listener_closures@, node, next, oe.len() as int);
    lemma_new_phase_adds(oe, ne, node, (st.1, st.2, st.3), ne.len() as int);
}

} // verus!
