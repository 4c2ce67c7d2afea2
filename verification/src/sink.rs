//! A model of the virtual device, and what the engine guarantees to it.
//!
//! The device keeps the set of keys that are down. The theorems of this
//! module run the engine over arbitrary sequences of source events and state
//! what then holds of the stream it writes.

use crate::engine::{
    consumed, desired_output, expansion, expansion_of, initial_state, is_tap, press_order, presses,
    produced, reconcile, release_all_step, release_order, releases, repeat_codes, repeats,
    resync_step, state_inv, step, tap_events, tap_of, EngineState, SinkEvent,
};
use crate::keys::KeyEventType;
use crate::keyset::{lemma_ascending, KeyCode};
use crate::mapping::{
    capability_set, dual_role_for, lemma_dual_role_for, lemma_remap_for, modifier_codes,
    output_codes, remap_for, rule_outputs, sole_inputs, Rule,
};
use vstd::prelude::*;

verus! {

/// The keys that are down on the device after one more event.
pub open spec fn sink_after(held: Set<KeyCode>, ev: SinkEvent) -> Set<KeyCode> {
    match ev {
        SinkEvent::Press(c) => held.insert(c),
        SinkEvent::Release(c) => held.remove(c),
        _ => held,
    }
}

/// The keys that are down on the device after `evs`, where `held` were down before.
pub open spec fn sink_run(held: Set<KeyCode>, evs: Seq<SinkEvent>) -> Set<KeyCode>
    decreases evs.len(),
{
    if evs.len() == 0 {
        held
    } else {
        sink_after(sink_run(held, evs.drop_last()), evs.last())
    }
}

/// Whether the device, with `held` down, takes `ev` without complaint: a
/// release must be of a key that is down, and where `strict` a press must be
/// of a key that is up.
pub open spec fn admits(held: Set<KeyCode>, ev: SinkEvent, strict: bool) -> bool {
    match ev {
        SinkEvent::Press(c) => !strict || !held.contains(c),
        SinkEvent::Release(c) => held.contains(c),
        _ => true,
    }
}

/// Every event of `evs` is admitted in the state that the events before it left.
pub open spec fn orderly(held: Set<KeyCode>, evs: Seq<SinkEvent>, strict: bool) -> bool
    decreases evs.len(),
{
    evs.len() == 0 || (orderly(held, evs.drop_last(), strict) && admits(
        sink_run(held, evs.drop_last()),
        evs.last(),
        strict,
    ))
}

/// Every release answers a press that no release has answered yet.
pub open spec fn releases_matched(held: Set<KeyCode>, evs: Seq<SinkEvent>) -> bool {
    orderly(held, evs, false)
}

/// No key is pressed while it is down, and every release answers a press.
pub open spec fn no_double_press(held: Set<KeyCode>, evs: Seq<SinkEvent>) -> bool {
    orderly(held, evs, true)
}

/// The key code that an event carries.
pub open spec fn event_code(ev: SinkEvent) -> Option<KeyCode> {
    match ev {
        SinkEvent::Press(c) => Some(c),
        SinkEvent::Release(c) => Some(c),
        SinkEvent::Repeat(c) => Some(c),
        SinkEvent::Other { code, .. } => Some(code),
        SinkEvent::Sync => None,
    }
}

/// Every key code in `evs` is one of `caps`.
pub open spec fn all_declared(caps: Set<KeyCode>, evs: Seq<SinkEvent>) -> bool {
    forall|i: int|
        0 <= i < evs.len() ==> (event_code(#[trigger] evs[i]) matches Some(c) ==> caps.contains(c))
}

/// One thing that the source hands to the engine.
pub ghost enum SourceEvent {
    /// A key event.
    Key { code: KeyCode, value: KeyEventType },
    /// Events were lost; `held` are the keys that are down now.
    Lost { held: Set<KeyCode> },
    /// The engine is about to stop.
    Shutdown,
}

/// What one source event does to the state, and what it writes.
pub open spec fn source_step(rules: Seq<Rule>, st: EngineState, ev: SourceEvent) -> (
    EngineState,
    Seq<SinkEvent>,
) {
    match ev {
        SourceEvent::Key { code, value } => step(rules, st, code, value),
        SourceEvent::Lost { held } => resync_step(rules, st, held),
        SourceEvent::Shutdown => release_all_step(rules, st),
    }
}

/// The state after a sequence of source events, and everything written meanwhile.
pub open spec fn run(rules: Seq<Rule>, st: EngineState, trace: Seq<SourceEvent>) -> (
    EngineState,
    Seq<SinkEvent>,
)
    decreases trace.len(),
{
    if trace.len() == 0 {
        (st, Seq::empty())
    } else {
        let (mid, evs) = run(rules, st, trace.drop_last());
        let (end, more) = source_step(rules, mid, trace.last());
        (end, evs + more)
    }
}

/// The event is the release that completes a tap, and one of the keys that
/// the tap emits is down on the sink at that moment.
pub open spec fn tap_collides(rules: Seq<Rule>, st: EngineState, ev: SourceEvent) -> bool {
    &&& ev matches SourceEvent::Key { code, value }
    &&& value is Release
    &&& is_tap(rules, st, code)
    &&& !tap_of(rules, code).disjoint(desired_output(rules, st.input_keys.remove(code)))
}

/// No event of `trace` is a tap that collides.
pub open spec fn collision_free(rules: Seq<Rule>, st: EngineState, trace: Seq<SourceEvent>) -> bool
    decreases trace.len(),
{
    trace.len() == 0 || (collision_free(rules, st, trace.drop_last()) && !tap_collides(
        rules,
        run(rules, st, trace.drop_last()).0,
        trace.last(),
    ))
}

proof fn lemma_concat(held: Set<KeyCode>, a: Seq<SinkEvent>, b: Seq<SinkEvent>, strict: bool)
    ensures
        sink_run(held, a + b) == sink_run(sink_run(held, a), b),
        orderly(held, a + b, strict) == (orderly(held, a, strict) && orderly(
            sink_run(held, a),
            b,
            strict,
        )),
    decreases b.len(),
{
    if b.len() == 0 {
        assert(a + b =~= a);
    } else {
        lemma_concat(held, a, b.drop_last(), strict);
        assert((a + b).drop_last() =~= a + b.drop_last());
        assert((a + b).last() == b.last());
    }
}

proof fn lemma_single(held: Set<KeyCode>, ev: SinkEvent, strict: bool)
    ensures
        sink_run(held, seq![ev]) == sink_after(held, ev),
        orderly(held, seq![ev], strict) == admits(held, ev, strict),
{
    let s = seq![ev];
    assert(s.drop_last() =~= Seq::<SinkEvent>::empty());
    assert(s.last() == ev);
    assert(sink_run(held, s.drop_last()) == held);
    assert(orderly(held, s.drop_last(), strict));
}

proof fn lemma_releases(held: Set<KeyCode>, s: Seq<KeyCode>, strict: bool)
    requires
        s.no_duplicates(),
        forall|i: int| 0 <= i < s.len() ==> held.contains(#[trigger] s[i]),
    ensures
        sink_run(held, releases(s)) == held.difference(s.to_set()),
        orderly(held, releases(s), strict),
    decreases s.len(),
{
    if s.len() == 0 {
        assert(held.difference(s.to_set()) =~= held);
    } else {
        let s0 = s.drop_last();
        lemma_releases(held, s0, strict);
        assert(releases(s).drop_last() =~= releases(s0));
        assert(releases(s).last() == SinkEvent::Release(s.last()));
        assert(!s0.contains(s.last())) by {
            if s0.contains(s.last()) {
                let i = choose|i: int| 0 <= i < s0.len() && s0[i] == s.last();
                assert(s[i] == s[s.len() - 1]);
            }
        }
        assert(held.contains(s[s.len() - 1]));
        assert forall|c: KeyCode| s.to_set().contains(c) <==> (s0.to_set().contains(c) || c
            == s.last()) by {
            if s.contains(c) {
                let i = choose|i: int| 0 <= i < s.len() && s[i] == c;
                if i < s0.len() {
                    assert(s0[i] == c);
                }
            }
            if s0.contains(c) {
                let i = choose|i: int| 0 <= i < s0.len() && s0[i] == c;
                assert(s[i] == c);
            }
            if c == s.last() {
                assert(s[s.len() - 1] == c);
            }
        }
        assert(held.difference(s0.to_set()).remove(s.last()) =~= held.difference(s.to_set()));
    }
}

proof fn lemma_presses(held: Set<KeyCode>, s: Seq<KeyCode>, strict: bool)
    requires
        s.no_duplicates(),
        strict ==> forall|i: int| 0 <= i < s.len() ==> !held.contains(#[trigger] s[i]),
    ensures
        sink_run(held, presses(s)) == held.union(s.to_set()),
        orderly(held, presses(s), strict),
    decreases s.len(),
{
    if s.len() == 0 {
        assert(held.union(s.to_set()) =~= held);
    } else {
        let s0 = s.drop_last();
        lemma_presses(held, s0, strict);
        assert(presses(s).drop_last() =~= presses(s0));
        assert(presses(s).last() == SinkEvent::Press(s.last()));
        assert(!s0.contains(s.last())) by {
            if s0.contains(s.last()) {
                let i = choose|i: int| 0 <= i < s0.len() && s0[i] == s.last();
                assert(s[i] == s[s.len() - 1]);
            }
        }
        if strict {
            assert(!held.contains(s[s.len() - 1]));
        }
        assert forall|c: KeyCode| s.to_set().contains(c) <==> (s0.to_set().contains(c) || c
            == s.last()) by {
            if s.contains(c) {
                let i = choose|i: int| 0 <= i < s.len() && s[i] == c;
                if i < s0.len() {
                    assert(s0[i] == c);
                }
            }
            if s0.contains(c) {
                let i = choose|i: int| 0 <= i < s0.len() && s0[i] == c;
                assert(s[i] == c);
            }
            if c == s.last() {
                assert(s[s.len() - 1] == c);
            }
        }
        assert(held.union(s0.to_set()).insert(s.last()) =~= held.union(s.to_set()));
    }
}

proof fn lemma_repeats(held: Set<KeyCode>, s: Seq<KeyCode>, strict: bool)
    ensures
        sink_run(held, repeats(s)) == held,
        orderly(held, repeats(s), strict),
    decreases s.len(),
{
    if s.len() > 0 {
        lemma_repeats(held, s.drop_last(), strict);
        assert(repeats(s).drop_last() =~= repeats(s.drop_last()));
        assert(repeats(s).last() == SinkEvent::Repeat(s.last()));
    }
}

/// The press order and the release order of a set list its keys, each once.
pub proof fn lemma_orders(rules: Seq<Rule>, keys: Set<KeyCode>)
    ensures
        press_order(rules, keys).no_duplicates(),
        press_order(rules, keys).to_set() == keys,
        release_order(rules, keys).no_duplicates(),
        release_order(rules, keys).to_set() == keys,
        forall|c: KeyCode| #[trigger] press_order(rules, keys).contains(c) <==> keys.contains(c),
        forall|c: KeyCode| #[trigger] release_order(rules, keys).contains(c) <==> keys.contains(c),
{
    let m = modifier_codes(rules);
    let a = crate::keyset::ascending(keys.intersect(m));
    let b = crate::keyset::ascending(keys.difference(m));
    lemma_ascending(keys.intersect(m));
    lemma_ascending(keys.difference(m));
    let p = press_order(rules, keys);
    let r = release_order(rules, keys);
    assert forall|i: int, j: int| 0 <= i < a.len() && 0 <= j < b.len() implies a[i] != b[j] by {
        assert(a.contains(a[i]));
        assert(b.contains(b[j]));
    }
    vstd::seq_lib::lemma_no_dup_in_concat(a, b);
    assert forall|c: KeyCode| #[trigger] p.contains(c) <==> keys.contains(c) by {
        if p.contains(c) {
            let i = choose|i: int| 0 <= i < p.len() && p[i] == c;
            if i < a.len() {
                assert(a[i] == c);
                assert(a.contains(c));
            } else {
                assert(b[i - a.len()] == c);
                assert(b.contains(c));
            }
        }
        if keys.contains(c) {
            if m.contains(c) {
                assert(a.contains(c));
                let i = choose|i: int| 0 <= i < a.len() && a[i] == c;
                assert(p[i] == c);
            } else {
                assert(b.contains(c));
                let i = choose|i: int| 0 <= i < b.len() && b[i] == c;
                assert(p[i + a.len()] == c);
            }
        }
    }
    assert(p.to_set() =~= keys);
    assert forall|i: int, j: int| 0 <= i < r.len() && 0 <= j < r.len() && i != j implies r[i]
        != r[j] by {
        assert(r[i] == p[p.len() - 1 - i]);
        assert(r[j] == p[p.len() - 1 - j]);
    }
    assert forall|c: KeyCode| #[trigger] r.contains(c) <==> keys.contains(c) by {
        if r.contains(c) {
            let i = choose|i: int| 0 <= i < r.len() && r[i] == c;
            assert(p[p.len() - 1 - i] == c);
            assert(p.contains(c));
        }
        if keys.contains(c) {
            assert(p.contains(c));
            let i = choose|i: int| 0 <= i < p.len() && p[i] == c;
            assert(r[p.len() - 1 - i] == c);
        }
    }
    assert(r.to_set() =~= keys);
}

/// Reconciling takes the sink from `output` to `desired` in an orderly way.
proof fn lemma_reconcile(rules: Seq<Rule>, output: Set<KeyCode>, desired: Set<KeyCode>, strict: bool)
    ensures
        sink_run(output, reconcile(rules, output, desired)) == desired,
        orderly(output, reconcile(rules, output, desired), strict),
{
    let down = release_order(rules, output.difference(desired));
    let up = press_order(rules, desired.difference(output));
    lemma_orders(rules, output.difference(desired));
    lemma_orders(rules, desired.difference(output));
    assert forall|i: int| 0 <= i < down.len() implies output.contains(#[trigger] down[i]) by {
        assert(down.contains(down[i]));
    }
    lemma_releases(output, down, strict);
    let mid = output.difference(down.to_set());
    assert forall|i: int| 0 <= i < up.len() implies !mid.contains(#[trigger] up[i]) by {
        assert(up.contains(up[i]));
    }
    lemma_presses(mid, up, strict);
    let end = mid.union(up.to_set());
    assert(end =~= desired);
    lemma_concat(output, releases(down), presses(up), strict);
    lemma_single(end, SinkEvent::Sync, strict);
    lemma_concat(output, releases(down) + presses(up), seq![SinkEvent::Sync], strict);
}

/// A tap leaves the sink without its keys; it is orderly where none of them was down.
proof fn lemma_tap(rules: Seq<Rule>, held: Set<KeyCode>, tap: Set<KeyCode>, strict: bool)
    requires
        strict ==> tap.disjoint(held),
    ensures
        sink_run(held, tap_events(rules, tap)) == held.difference(tap),
        orderly(held, tap_events(rules, tap), strict),
{
    let up = press_order(rules, tap);
    let down = release_order(rules, tap);
    lemma_orders(rules, tap);
    if strict {
        assert forall|i: int| 0 <= i < up.len() implies !held.contains(#[trigger] up[i]) by {
            assert(up.contains(up[i]));
        }
    }
    lemma_presses(held, up, strict);
    let s1 = held.union(tap);
    lemma_single(s1, SinkEvent::Sync, strict);
    lemma_concat(held, presses(up), seq![SinkEvent::Sync], strict);
    assert forall|i: int| 0 <= i < down.len() implies s1.contains(#[trigger] down[i]) by {
        assert(down.contains(down[i]));
    }
    lemma_releases(s1, down, strict);
    let s2 = s1.difference(tap);
    assert(s2 =~= held.difference(tap));
    lemma_concat(held, presses(up) + seq![SinkEvent::Sync], releases(down), strict);
    lemma_single(s2, SinkEvent::Sync, strict);
    lemma_concat(
        held,
        presses(up) + seq![SinkEvent::Sync] + releases(down),
        seq![SinkEvent::Sync],
        strict,
    );
}

/// One source event: the sink ends with exactly the keys that the engine
/// believes to be down, every release answers a press, and no key is pressed
/// twice unless the event is a tap that collides.
pub proof fn lemma_step_orderly(rules: Seq<Rule>, st: EngineState, ev: SourceEvent)
    ensures
        sink_run(st.output_keys, source_step(rules, st, ev).1) == source_step(
            rules,
            st,
            ev,
        ).0.output_keys,
        releases_matched(st.output_keys, source_step(rules, st, ev).1),
        !tap_collides(rules, st, ev) ==> no_double_press(
            st.output_keys,
            source_step(rules, st, ev).1,
        ),
{
    lemma_step_orderly_as(rules, st, ev, false);
    if !tap_collides(rules, st, ev) {
        lemma_step_orderly_as(rules, st, ev, true);
    }
}

proof fn lemma_step_orderly_as(rules: Seq<Rule>, st: EngineState, ev: SourceEvent, strict: bool)
    requires
        strict ==> !tap_collides(rules, st, ev),
    ensures
        sink_run(st.output_keys, source_step(rules, st, ev).1) == source_step(
            rules,
            st,
            ev,
        ).0.output_keys,
        orderly(st.output_keys, source_step(rules, st, ev).1, strict),
{
    let out = st.output_keys;
    match ev {
        SourceEvent::Key { code, value } => {
            match value {
                KeyEventType::Press => {
                    lemma_reconcile(
                        rules,
                        out,
                        desired_output(rules, st.input_keys.insert(code)),
                        strict,
                    );
                },
                KeyEventType::Release => {
                    let desired = desired_output(rules, st.input_keys.remove(code));
                    lemma_reconcile(rules, out, desired, strict);
                    if is_tap(rules, st, code) {
                        let tap = tap_of(rules, code);
                        lemma_tap(rules, desired, tap, strict);
                        lemma_concat(
                            out,
                            reconcile(rules, out, desired),
                            tap_events(rules, tap),
                            strict,
                        );
                    }
                },
                KeyEventType::Repeat => {
                    let codes = repeat_codes(rules, st.input_keys, code);
                    lemma_repeats(out, codes, strict);
                    lemma_single(out, SinkEvent::Sync, strict);
                    lemma_concat(out, repeats(codes), seq![SinkEvent::Sync], strict);
                },
                KeyEventType::Unknown(v) => {
                    let first = SinkEvent::Other { code, value: v };
                    lemma_single(out, first, strict);
                    lemma_single(out, SinkEvent::Sync, strict);
                    lemma_concat(out, seq![first], seq![SinkEvent::Sync], strict);
                    assert(seq![first] + seq![SinkEvent::Sync] =~= seq![first, SinkEvent::Sync]);
                },
            }
        },
        SourceEvent::Lost { held } => {
            lemma_reconcile(rules, out, desired_output(rules, held), strict);
        },
        SourceEvent::Shutdown => {
            let down = release_order(rules, out);
            lemma_orders(rules, out);
            assert forall|i: int| 0 <= i < down.len() implies out.contains(#[trigger] down[i]) by {
                assert(down.contains(down[i]));
            }
            lemma_releases(out, down, strict);
            assert(out.difference(down.to_set()) =~= Set::<KeyCode>::empty());
            lemma_single(Set::<KeyCode>::empty(), SinkEvent::Sync, strict);
            lemma_concat(out, releases(down), seq![SinkEvent::Sync], strict);
        },
    }
}

/// Whatever the source sends, the keys that are down on the sink are the
/// engine's `output_keys`, and every release that the sink receives answers
/// a press that no release has answered yet. Where no tap collides, no key
/// is pressed while it is down.
pub proof fn theorem_sink_stream(rules: Seq<Rule>, st: EngineState, trace: Seq<SourceEvent>)
    ensures
        sink_run(st.output_keys, run(rules, st, trace).1) == run(rules, st, trace).0.output_keys,
        releases_matched(st.output_keys, run(rules, st, trace).1),
        collision_free(rules, st, trace) ==> no_double_press(
            st.output_keys,
            run(rules, st, trace).1,
        ),
    decreases trace.len(),
{
    if trace.len() > 0 {
        let front = trace.drop_last();
        theorem_sink_stream(rules, st, front);
        let (mid, evs) = run(rules, st, front);
        let (end, more) = source_step(rules, mid, trace.last());
        lemma_step_orderly(rules, mid, trace.last());
        lemma_concat(st.output_keys, evs, more, false);
        lemma_concat(st.output_keys, evs, more, true);
    }
}

/// The key that may still become a tap is down and has a DualRole rule, after every event.
pub proof fn theorem_state_inv(rules: Seq<Rule>, st: EngineState, trace: Seq<SourceEvent>)
    requires
        state_inv(rules, st),
    ensures
        state_inv(rules, run(rules, st, trace).0),
    decreases trace.len(),
{
    if trace.len() > 0 {
        theorem_state_inv(rules, st, trace.drop_last());
    }
}

/// The keys that are down on the sink are among those that the held keys call for.
proof fn lemma_output_within_desired(rules: Seq<Rule>, st: EngineState, trace: Seq<SourceEvent>)
    requires
        st.output_keys.subset_of(desired_output(rules, st.input_keys)),
    ensures
        run(rules, st, trace).0.output_keys.subset_of(
            desired_output(rules, run(rules, st, trace).0.input_keys),
        ),
    decreases trace.len(),
{
    if trace.len() > 0 {
        lemma_output_within_desired(rules, st, trace.drop_last());
    }
}

/// Where no rule calls for a key while nothing is held: after any sequence of
/// source events that leaves no physical key down, no key is down on the sink.
pub proof fn theorem_all_released(rules: Seq<Rule>, trace: Seq<SourceEvent>)
    requires
        desired_output(rules, Set::empty()) == Set::<KeyCode>::empty(),
    ensures
        run(rules, initial_state(), trace).0.input_keys == Set::<KeyCode>::empty() ==> run(
            rules,
            initial_state(),
            trace,
        ).0.output_keys == Set::<KeyCode>::empty(),
{
    lemma_output_within_desired(rules, initial_state(), trace);
    let end = run(rules, initial_state(), trace).0;
    if end.input_keys == Set::<KeyCode>::empty() {
        assert(end.output_keys =~= Set::<KeyCode>::empty());
    }
}

/// No rule calls for a key while nothing is held, where every Remap has a key in its input.
pub proof fn lemma_idle_without_empty_chords(rules: Seq<Rule>)
    requires
        forall|i: int|
            0 <= i < rules.len() ==> (#[trigger] rules[i] matches Rule::Remap { input, .. }
                ==> input != Set::<KeyCode>::empty()),
    ensures
        desired_output(rules, Set::empty()) == Set::<KeyCode>::empty(),
{
    let none = Set::<KeyCode>::empty();
    lemma_remap_for(rules, none);
    if remap_for(rules, none) is Some {
        let i = remap_for(rules, none)->0;
        let input = consumed(rules, none);
        assert(rules[i] is Remap);
        assert(input.subset_of(none));
        assert(input =~= none);
    }
    assert(desired_output(rules, none) =~= none);
}

/// After a press or a release, the keys that are down on the sink depend on
/// the held keys and on the pending tap alone, not on what was down on the
/// sink before nor on how the keys came to be held.
pub proof fn theorem_output_determined(
    rules: Seq<Rule>,
    a: EngineState,
    b: EngineState,
    code: KeyCode,
    value: KeyEventType,
)
    requires
        a.input_keys == b.input_keys,
        a.tapping == b.tapping,
        value is Press || value is Release,
    ensures
        step(rules, a, code, value).0 == step(rules, b, code, value).0,
        !tap_collides(rules, a, SourceEvent::Key { code, value }) ==> step(
            rules,
            a,
            code,
            value,
        ).0.output_keys == desired_output(rules, step(rules, a, code, value).0.input_keys),
{
    if !tap_collides(rules, a, SourceEvent::Key { code, value }) {
        let end = step(rules, a, code, value).0;
        assert(end.output_keys =~= desired_output(rules, end.input_keys));
    }
}

/// Two key events that leave the same keys held in either order leave the
/// same keys down on the sink in either order, where neither order ends in
/// a tap that collides.
pub proof fn theorem_commuting_events(
    rules: Seq<Rule>,
    st: EngineState,
    first: SourceEvent,
    second: SourceEvent,
)
    requires
        first is Key,
        second is Key,
        source_step(rules, source_step(rules, st, first).0, second).0.input_keys == source_step(
            rules,
            source_step(rules, st, second).0,
            first,
        ).0.input_keys,
        !tap_collides(rules, source_step(rules, st, first).0, second),
        !tap_collides(rules, source_step(rules, st, second).0, first),
    ensures
        source_step(rules, source_step(rules, st, first).0, second).0.output_keys == source_step(
            rules,
            source_step(rules, st, second).0,
            first,
        ).0.output_keys,
{
    let a1 = source_step(rules, st, first).0;
    let a2 = source_step(rules, a1, second).0;
    let b1 = source_step(rules, st, second).0;
    let b2 = source_step(rules, b1, first).0;
    lemma_settled_after(rules, st, first);
    lemma_settled_after(rules, st, second);
    lemma_settled_after(rules, a1, second);
    lemma_settled_after(rules, b1, first);
    assert(a2.output_keys =~= b2.output_keys);
}

/// A key event that moves a key leaves on the sink what the held keys call
/// for (less a colliding tap); one that moves none leaves the sink as it was.
proof fn lemma_settled_after(rules: Seq<Rule>, st: EngineState, ev: SourceEvent)
    requires
        ev is Key,
    ensures
        ({
            let end = source_step(rules, st, ev).0;
            if ev->value is Press || ev->value is Release {
                tap_collides(rules, st, ev) || end.output_keys == desired_output(
                    rules,
                    end.input_keys,
                )
            } else {
                end == st
            }
        }),
{
    let end = source_step(rules, st, ev).0;
    if (ev->value is Press || ev->value is Release) && !tap_collides(rules, st, ev) {
        assert(end.output_keys =~= desired_output(rules, end.input_keys));
    }
}

/// Among the held keys that the Remap in force leaves alone there is one that
/// passes through under its own code although the sink does not declare it:
/// it is the whole input of a Remap over which another took precedence, and
/// no rule emits it.
pub open spec fn shadowed(rules: Seq<Rule>, held: Set<KeyCode>) -> bool {
    exists|k: KeyCode|
        #![trigger held.contains(k)]
        held.contains(k) && !consumed(rules, held).contains(k) && dual_role_for(rules, k) is None
            && sole_inputs(rules).contains(k) && !output_codes(rules).contains(k)
}

/// The event is one that a source which advertises `source` sends while the
/// engine is in `st`: a press of a key that it has, a release, a repeat of
/// a key that is down, or the keys that are down after a loss, all of them
/// keys that it has. And it leaves no shadowed key held.
pub open spec fn admissible(
    rules: Seq<Rule>,
    source: Set<KeyCode>,
    st: EngineState,
    ev: SourceEvent,
) -> bool {
    match ev {
        SourceEvent::Key { code, value } => match value {
            KeyEventType::Press => source.contains(code) && !shadowed(
                rules,
                st.input_keys.insert(code),
            ),
            KeyEventType::Release => !shadowed(rules, st.input_keys.remove(code)),
            KeyEventType::Repeat => st.input_keys.contains(code) && !shadowed(rules, st.input_keys),
            KeyEventType::Unknown(_) => false,
        },
        SourceEvent::Lost { held } => held.subset_of(source) && !shadowed(rules, held),
        SourceEvent::Shutdown => true,
    }
}

/// Every event of `trace` is admissible in the state in which it arrives.
pub open spec fn admissible_trace(
    rules: Seq<Rule>,
    source: Set<KeyCode>,
    st: EngineState,
    trace: Seq<SourceEvent>,
) -> bool
    decreases trace.len(),
{
    trace.len() == 0 || (admissible_trace(rules, source, st, trace.drop_last()) && admissible(
        rules,
        source,
        run(rules, st, trace.drop_last()).0,
        trace.last(),
    ))
}

/// The held keys are keys of the source, and the keys that are down on the
/// sink are keys that it declares.
pub open spec fn covered(rules: Seq<Rule>, source: Set<KeyCode>, st: EngineState) -> bool {
    st.input_keys.subset_of(source) && st.output_keys.subset_of(capability_set(rules, source))
}

proof fn lemma_declared_concat(caps: Set<KeyCode>, a: Seq<SinkEvent>, b: Seq<SinkEvent>)
    requires
        all_declared(caps, a),
        all_declared(caps, b),
    ensures
        all_declared(caps, a + b),
{
    assert forall|i: int| 0 <= i < (a + b).len() implies (event_code(#[trigger] (a + b)[i]) matches Some(
        c,
    ) ==> caps.contains(c)) by {
        if i < a.len() {
            assert((a + b)[i] == a[i]);
        } else {
            assert((a + b)[i] == b[i - a.len()]);
        }
    }
}

/// Events made of the keys of a declared set are declared.
proof fn lemma_declared_keys(rules: Seq<Rule>, caps: Set<KeyCode>, keys: Set<KeyCode>)
    requires
        keys.subset_of(caps),
    ensures
        all_declared(caps, presses(press_order(rules, keys))),
        all_declared(caps, repeats(press_order(rules, keys))),
        all_declared(caps, releases(release_order(rules, keys))),
        all_declared(caps, seq![SinkEvent::Sync]),
{
    lemma_orders(rules, keys);
    let p = press_order(rules, keys);
    let r = release_order(rules, keys);
    assert forall|i: int| 0 <= i < p.len() implies caps.contains(#[trigger] p[i]) by {
        assert(p.contains(p[i]));
    }
    assert forall|i: int| 0 <= i < r.len() implies caps.contains(#[trigger] r[i]) by {
        assert(r.contains(r[i]));
    }
}

/// What the held keys call for is declared, where they are keys of the
/// source and none of them is shadowed.
pub proof fn lemma_desired_declared(rules: Seq<Rule>, source: Set<KeyCode>, held: Set<KeyCode>)
    requires
        held.subset_of(source),
        !shadowed(rules, held),
    ensures
        desired_output(rules, held).subset_of(capability_set(rules, source)),
        produced(rules, held).subset_of(output_codes(rules)),
{
    let caps = capability_set(rules, source);
    lemma_remap_for(rules, held);
    assert forall|c: KeyCode| produced(rules, held).contains(c) implies output_codes(
        rules,
    ).contains(c) by {
        let i = remap_for(rules, held)->0;
        assert(rule_outputs(rules[i]).contains(c));
    }
    assert forall|c: KeyCode| desired_output(rules, held).contains(c) implies caps.contains(c) by {
        if !produced(rules, held).contains(c) {
            let residue = held.difference(consumed(rules, held));
            let k = choose|k: KeyCode|
                residue.contains(k) && #[trigger] expansion(rules, k).contains(c);
            lemma_expansion_declared(rules, k);
            if dual_role_for(rules, k) is None {
                assert(held.contains(k));
            }
        }
    }
}

/// What a key with a DualRole stands for, and what its tap emits, are codes that the rules emit.
proof fn lemma_expansion_declared(rules: Seq<Rule>, key: KeyCode)
    ensures
        dual_role_for(rules, key) is Some ==> expansion(rules, key).subset_of(output_codes(rules)),
        tap_of(rules, key).subset_of(output_codes(rules)),
{
    lemma_dual_role_for(rules, key);
    if dual_role_for(rules, key) is Some {
        let j = dual_role_for(rules, key)->0;
        assert forall|c: KeyCode| expansion(rules, key).contains(c) implies output_codes(
            rules,
        ).contains(c) by {
            assert(rule_outputs(rules[j]).contains(c));
        }
        assert forall|c: KeyCode| tap_of(rules, key).contains(c) implies output_codes(
            rules,
        ).contains(c) by {
            assert(rule_outputs(rules[j]).contains(c));
        }
    }
}

/// One admissible event keeps the state covered and writes declared codes only.
pub proof fn lemma_step_declared(
    rules: Seq<Rule>,
    source: Set<KeyCode>,
    st: EngineState,
    ev: SourceEvent,
)
    requires
        covered(rules, source, st),
        admissible(rules, source, st, ev),
    ensures
        covered(rules, source, source_step(rules, st, ev).0),
        all_declared(capability_set(rules, source), source_step(rules, st, ev).1),
{
    let caps = capability_set(rules, source);
    let out = st.output_keys;
    match ev {
        SourceEvent::Key { code, value } => {
            match value {
                KeyEventType::Press => {
                    let held = st.input_keys.insert(code);
                    lemma_desired_declared(rules, source, held);
                    lemma_reconcile_declared(rules, caps, out, desired_output(rules, held));
                },
                KeyEventType::Release => {
                    let held = st.input_keys.remove(code);
                    let desired = desired_output(rules, held);
                    lemma_desired_declared(rules, source, held);
                    lemma_reconcile_declared(rules, caps, out, desired);
                    if is_tap(rules, st, code) {
                        let tap = tap_of(rules, code);
                        lemma_expansion_declared(rules, code);
                        lemma_declared_keys(rules, caps, tap);
                        let up = presses(press_order(rules, tap));
                        let down = releases(release_order(rules, tap));
                        let sync = seq![SinkEvent::Sync];
                        lemma_declared_concat(caps, up, sync);
                        lemma_declared_concat(caps, up + sync, down);
                        lemma_declared_concat(caps, up + sync + down, sync);
                        lemma_declared_concat(
                            caps,
                            reconcile(rules, out, desired),
                            tap_events(rules, tap),
                        );
                    }
                },
                KeyEventType::Repeat => {
                    let held = st.input_keys;
                    lemma_desired_declared(rules, source, held);
                    lemma_expansion_declared(rules, code);
                    let keys = if consumed(rules, held).contains(code) {
                        produced(rules, held)
                    } else {
                        expansion(rules, code)
                    };
                    assert(keys.subset_of(caps));
                    lemma_declared_keys(rules, caps, keys);
                    lemma_declared_concat(
                        caps,
                        repeats(press_order(rules, keys)),
                        seq![SinkEvent::Sync],
                    );
                },
                KeyEventType::Unknown(v) => {},
            }
        },
        SourceEvent::Lost { held } => {
            lemma_desired_declared(rules, source, held);
            lemma_reconcile_declared(rules, caps, out, desired_output(rules, held));
        },
        SourceEvent::Shutdown => {
            lemma_declared_keys(rules, caps, out);
            lemma_declared_concat(
                caps,
                releases(release_order(rules, out)),
                seq![SinkEvent::Sync],
            );
        },
    }
}

proof fn lemma_reconcile_declared(
    rules: Seq<Rule>,
    caps: Set<KeyCode>,
    output: Set<KeyCode>,
    desired: Set<KeyCode>,
)
    requires
        output.subset_of(caps),
        desired.subset_of(caps),
    ensures
        all_declared(caps, reconcile(rules, output, desired)),
{
    lemma_declared_keys(rules, caps, output.difference(desired));
    lemma_declared_keys(rules, caps, desired.difference(output));
    let down = releases(release_order(rules, output.difference(desired)));
    let up = presses(press_order(rules, desired.difference(output)));
    lemma_declared_concat(caps, down, up);
    lemma_declared_concat(caps, down + up, seq![SinkEvent::Sync]);
}

/// The codes that the virtual device declares when it is created include
/// every code that the engine ever writes, over any sequence of admissible
/// source events.
pub proof fn theorem_capabilities_cover(
    rules: Seq<Rule>,
    source: Set<KeyCode>,
    trace: Seq<SourceEvent>,
)
    requires
        admissible_trace(rules, source, initial_state(), trace),
    ensures
        all_declared(capability_set(rules, source), run(rules, initial_state(), trace).1),
        covered(rules, source, run(rules, initial_state(), trace).0),
    decreases trace.len(),
{
    if trace.len() > 0 {
        let front = trace.drop_last();
        theorem_capabilities_cover(rules, source, front);
        let (mid, evs) = run(rules, initial_state(), front);
        lemma_step_declared(rules, source, mid, trace.last());
        lemma_declared_concat(
            capability_set(rules, source),
            evs,
            source_step(rules, mid, trace.last()).1,
        );
    }
}

/// The keys that are down on the source after `trace`, where `held` were down before.
pub open spec fn source_held(held: Set<KeyCode>, trace: Seq<SourceEvent>) -> Set<KeyCode>
    decreases trace.len(),
{
    if trace.len() == 0 {
        held
    } else {
        let before = source_held(held, trace.drop_last());
        match trace.last() {
            SourceEvent::Key { code, value } => match value {
                KeyEventType::Press => before.insert(code),
                KeyEventType::Release => before.remove(code),
                _ => before,
            },
            SourceEvent::Lost { held: now } => now,
            SourceEvent::Shutdown => before,
        }
    }
}

/// The engine's `input_keys` are the keys that are down on the source.
pub proof fn theorem_input_mirrors_source(
    rules: Seq<Rule>,
    st: EngineState,
    trace: Seq<SourceEvent>,
)
    ensures
        run(rules, st, trace).0.input_keys == source_held(st.input_keys, trace),
    decreases trace.len(),
{
    if trace.len() > 0 {
        theorem_input_mirrors_source(rules, st, trace.drop_last());
    }
}

/// In the press order no modifier comes after a key that is none; in the
/// release order no modifier comes before one.
pub proof fn lemma_modifiers_first(rules: Seq<Rule>, keys: Set<KeyCode>)
    ensures
        forall|i: int, j: int|
            0 <= i < j < press_order(rules, keys).len() && modifier_codes(rules).contains(
                press_order(rules, keys)[j],
            ) ==> modifier_codes(rules).contains(press_order(rules, keys)[i]),
        forall|i: int, j: int|
            0 <= i < j < release_order(rules, keys).len() && modifier_codes(rules).contains(
                release_order(rules, keys)[i],
            ) ==> modifier_codes(rules).contains(release_order(rules, keys)[j]),
{
    let m = modifier_codes(rules);
    let a = crate::keyset::ascending(keys.intersect(m));
    let b = crate::keyset::ascending(keys.difference(m));
    lemma_ascending(keys.intersect(m));
    lemma_ascending(keys.difference(m));
    let p = press_order(rules, keys);
    let r = release_order(rules, keys);
    assert forall|i: int| 0 <= i < p.len() implies (m.contains(#[trigger] p[i]) <==> i
        < a.len()) by {
        if i < a.len() {
            assert(a.contains(a[i]));
        } else {
            assert(b.contains(b[i - a.len()]));
        }
    }
    assert forall|i: int, j: int| 0 <= i < j < r.len() && m.contains(r[i]) implies m.contains(
        r[j],
    ) by {
        assert(r[i] == p[p.len() - 1 - i]);
        assert(r[j] == p[p.len() - 1 - j]);
    }
}

} // verus!
