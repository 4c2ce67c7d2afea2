//! The remapping engine: the state kept between events, and what each event
//! of the source does to it and writes to the sink.
//!
//! The engine performs no I/O. Each method takes one event of the source and
//! returns the events to write to the virtual device, in order. What it
//! returns is stated over [`step`] and its parts, which are functions of
//! plain sets.

use crate::keys::KeyEventType;
use crate::keyset::{ascending, lemma_ascending, KeyCode, KeySet};
use crate::mapping::{
    dual_role_for, lemma_dual_role_for, lemma_remap_for, modifier_codes, remap_for, Mapping,
    MappingTable, Rule,
};
use vstd::prelude::*;

verus! {

/// One event written to the virtual device.
#[derive(Clone, Copy, Debug, PartialEq, Eq, Structural)]
pub enum SinkEvent {
    /// A key goes down.
    Press(KeyCode),
    /// A key goes up.
    Release(KeyCode),
    /// A key that is down repeats.
    Repeat(KeyCode),
    /// A key event with a value other than release, press or repeat, passed on as it came.
    Other { code: KeyCode, value: i32 },
    /// The boundary that commits the events written since the last one.
    Sync,
}

/// What the engine keeps between events.
pub ghost struct EngineState {
    /// The physical keys that are down.
    pub input_keys: Set<KeyCode>,
    /// The keys that are down on the virtual device.
    pub output_keys: Set<KeyCode>,
    /// The DualRole key that was pressed and has seen no other press since.
    pub tapping: Option<KeyCode>,
}

/// The input of a Remap.
pub open spec fn remap_input(rule: Rule) -> Set<KeyCode> {
    match rule {
        Rule::Remap { input, .. } => input,
        Rule::DualRole { .. } => Set::empty(),
    }
}

/// The output of a Remap.
pub open spec fn remap_output(rule: Rule) -> Set<KeyCode> {
    match rule {
        Rule::Remap { output, .. } => output,
        Rule::DualRole { .. } => Set::empty(),
    }
}

/// What a DualRole holds down while its key is held.
pub open spec fn dual_hold(rule: Rule) -> Set<KeyCode> {
    match rule {
        Rule::Remap { .. } => Set::empty(),
        Rule::DualRole { hold, .. } => hold,
    }
}

/// What a DualRole emits on a tap.
pub open spec fn dual_tap(rule: Rule) -> Set<KeyCode> {
    match rule {
        Rule::Remap { .. } => Set::empty(),
        Rule::DualRole { tap, .. } => tap,
    }
}

/// The held keys that the Remap in force takes away.
pub open spec fn consumed(rules: Seq<Rule>, held: Set<KeyCode>) -> Set<KeyCode> {
    match remap_for(rules, held) {
        Some(i) => remap_input(rules[i]),
        None => Set::empty(),
    }
}

/// The keys that the Remap in force puts in their place.
pub open spec fn produced(rules: Seq<Rule>, held: Set<KeyCode>) -> Set<KeyCode> {
    match remap_for(rules, held) {
        Some(i) => remap_output(rules[i]),
        None => Set::empty(),
    }
}

/// What a held key that no Remap consumed stands for: the `hold` set of its
/// DualRole, or itself.
pub open spec fn expansion(rules: Seq<Rule>, key: KeyCode) -> Set<KeyCode> {
    match dual_role_for(rules, key) {
        Some(i) => dual_hold(rules[i]),
        None => set![key],
    }
}

/// What the first `n` keys of `keys` stand for, taken together.
pub open spec fn expansion_upto(rules: Seq<Rule>, keys: Seq<KeyCode>, n: int) -> Set<KeyCode> {
    Set::new(
        |c: KeyCode| exists|j: int| 0 <= j < n && #[trigger] expansion(rules, keys[j]).contains(c),
    )
}

/// What the keys of `residue` stand for, taken together.
pub open spec fn expansion_of(rules: Seq<Rule>, residue: Set<KeyCode>) -> Set<KeyCode> {
    Set::new(
        |c: KeyCode|
            exists|k: KeyCode| residue.contains(k) && #[trigger] expansion(rules, k).contains(c),
    )
}

/// The keys that should be down on the virtual device while `held` is held:
/// the output of the one Remap in force, and what each key that it did not
/// consume stands for.
pub open spec fn desired_output(rules: Seq<Rule>, held: Set<KeyCode>) -> Set<KeyCode> {
    produced(rules, held).union(expansion_of(rules, held.difference(consumed(rules, held))))
}

/// The order in which keys are pressed: modifiers first; within each class by code.
pub open spec fn press_order(rules: Seq<Rule>, keys: Set<KeyCode>) -> Seq<KeyCode> {
    ascending(keys.intersect(modifier_codes(rules))) + ascending(
        keys.difference(modifier_codes(rules)),
    )
}

/// The order in which keys are released: the press order backwards, so that modifiers go last.
pub open spec fn release_order(rules: Seq<Rule>, keys: Set<KeyCode>) -> Seq<KeyCode> {
    press_order(rules, keys).reverse()
}

pub open spec fn presses(codes: Seq<KeyCode>) -> Seq<SinkEvent> {
    Seq::new(codes.len(), |i: int| SinkEvent::Press(codes[i]))
}

pub open spec fn releases(codes: Seq<KeyCode>) -> Seq<SinkEvent> {
    Seq::new(codes.len(), |i: int| SinkEvent::Release(codes[i]))
}

pub open spec fn repeats(codes: Seq<KeyCode>) -> Seq<SinkEvent> {
    Seq::new(codes.len(), |i: int| SinkEvent::Repeat(codes[i]))
}

/// The events that take the virtual device from `output` to `desired`: the
/// releases, then the presses, then the boundary.
pub open spec fn reconcile(rules: Seq<Rule>, output: Set<KeyCode>, desired: Set<KeyCode>) -> Seq<
    SinkEvent,
> {
    releases(release_order(rules, output.difference(desired))) + presses(
        press_order(rules, desired.difference(output)),
    ) + seq![SinkEvent::Sync]
}

/// The events of a tap: the keys go down, a boundary, they go up in the
/// opposite order, a boundary.
pub open spec fn tap_events(rules: Seq<Rule>, tap: Set<KeyCode>) -> Seq<SinkEvent> {
    presses(press_order(rules, tap)) + seq![SinkEvent::Sync] + releases(release_order(rules, tap))
        + seq![SinkEvent::Sync]
}

/// The keys that repeat on the virtual device when `key` repeats on the source.
pub open spec fn repeat_codes(rules: Seq<Rule>, held: Set<KeyCode>, key: KeyCode) -> Seq<KeyCode> {
    if consumed(rules, held).contains(key) {
        press_order(rules, produced(rules, held))
    } else {
        press_order(rules, expansion(rules, key))
    }
}

/// A key goes down on the source.
pub open spec fn press_step(rules: Seq<Rule>, st: EngineState, key: KeyCode) -> (
    EngineState,
    Seq<SinkEvent>,
) {
    let input = st.input_keys.insert(key);
    let desired = desired_output(rules, input);
    (
        EngineState {
            input_keys: input,
            output_keys: desired,
            tapping: if dual_role_for(rules, key) is Some {
                Some(key)
            } else {
                None
            },
        },
        reconcile(rules, st.output_keys, desired),
    )
}

/// Whether the release of `key` is a tap.
pub open spec fn is_tap(rules: Seq<Rule>, st: EngineState, key: KeyCode) -> bool {
    st.tapping == Some(key) && dual_role_for(rules, key) is Some
}

/// What a tap of `key` emits.
pub open spec fn tap_of(rules: Seq<Rule>, key: KeyCode) -> Set<KeyCode> {
    match dual_role_for(rules, key) {
        Some(i) => dual_tap(rules[i]),
        None => Set::empty(),
    }
}

/// A key goes up on the source.
pub open spec fn release_step(rules: Seq<Rule>, st: EngineState, key: KeyCode) -> (
    EngineState,
    Seq<SinkEvent>,
) {
    let input = st.input_keys.remove(key);
    let desired = desired_output(rules, input);
    let events = reconcile(rules, st.output_keys, desired);
    if is_tap(rules, st, key) {
        (
            EngineState {
                input_keys: input,
                output_keys: desired.difference(tap_of(rules, key)),
                tapping: None,
            },
            events + tap_events(rules, tap_of(rules, key)),
        )
    } else {
        (
            EngineState {
                input_keys: input,
                output_keys: desired,
                tapping: if st.tapping == Some(key) {
                    None
                } else {
                    st.tapping
                },
            },
            events,
        )
    }
}

/// A key repeats on the source.
pub open spec fn repeat_step(rules: Seq<Rule>, st: EngineState, key: KeyCode) -> (
    EngineState,
    Seq<SinkEvent>,
) {
    (st, repeats(repeat_codes(rules, st.input_keys, key)) + seq![SinkEvent::Sync])
}

/// One key event of the source: the state after it, and what is written to the sink.
pub open spec fn step(rules: Seq<Rule>, st: EngineState, key: KeyCode, value: KeyEventType) -> (
    EngineState,
    Seq<SinkEvent>,
) {
    match value {
        KeyEventType::Press => press_step(rules, st, key),
        KeyEventType::Release => release_step(rules, st, key),
        KeyEventType::Repeat => repeat_step(rules, st, key),
        KeyEventType::Unknown(v) => (
            st,
            seq![SinkEvent::Other { code: key, value: v }, SinkEvent::Sync],
        ),
    }
}

/// The source lost events: the keys that are down are read again from the
/// device, the sink is brought in line with them, and a pending tap is given up.
pub open spec fn resync_step(rules: Seq<Rule>, st: EngineState, held: Set<KeyCode>) -> (
    EngineState,
    Seq<SinkEvent>,
) {
    let desired = desired_output(rules, held);
    (
        EngineState { input_keys: held, output_keys: desired, tapping: None },
        reconcile(rules, st.output_keys, desired),
    )
}

/// Every key that is down on the sink goes up, in one batch.
pub open spec fn release_all_step(rules: Seq<Rule>, st: EngineState) -> (
    EngineState,
    Seq<SinkEvent>,
) {
    (
        EngineState { input_keys: st.input_keys, output_keys: Set::empty(), tapping: st.tapping },
        releases(release_order(rules, st.output_keys)) + seq![SinkEvent::Sync],
    )
}

/// The state before the first event.
pub open spec fn initial_state() -> EngineState {
    EngineState { input_keys: Set::empty(), output_keys: Set::empty(), tapping: None }
}

/// The keys of `keys` in the order in which they are pressed.
pub fn ordered(table: &MappingTable, keys: &KeySet) -> (codes: Vec<KeyCode>)
    ensures
        codes@ == press_order(table@, keys@),
{
    let mods = keys.intersect(table.modifiers());
    let rest = keys.difference(table.modifiers());
    let mut codes = mods.to_vec();
    let mut tail = rest.to_vec();
    codes.append(&mut tail);
    codes
}

fn push_presses(events: &mut Vec<SinkEvent>, codes: &Vec<KeyCode>)
    ensures
        final(events)@ == old(events)@ + presses(codes@),
{
    let mut i: usize = 0;
    while i < codes.len()
        invariant
            i <= codes.len(),
            events@ == old(events)@ + presses(codes@.take(i as int)),
        decreases codes.len() - i,
    {
        events.push(SinkEvent::Press(codes[i]));
        i += 1;
        assert(events@ =~= old(events)@ + presses(codes@.take(i as int)));
    }
    assert(codes@.take(codes.len() as int) =~= codes@);
}

fn push_repeats(events: &mut Vec<SinkEvent>, codes: &Vec<KeyCode>)
    ensures
        final(events)@ == old(events)@ + repeats(codes@),
{
    let mut i: usize = 0;
    while i < codes.len()
        invariant
            i <= codes.len(),
            events@ == old(events)@ + repeats(codes@.take(i as int)),
        decreases codes.len() - i,
    {
        events.push(SinkEvent::Repeat(codes[i]));
        i += 1;
        assert(events@ =~= old(events)@ + repeats(codes@.take(i as int)));
    }
    assert(codes@.take(codes.len() as int) =~= codes@);
}

/// Releases the keys of `codes`, the last one first.
fn push_releases_backwards(events: &mut Vec<SinkEvent>, codes: &Vec<KeyCode>)
    ensures
        final(events)@ == old(events)@ + releases(codes@.reverse()),
{
    let n = codes.len();
    let mut i: usize = 0;
    while i < n
        invariant
            i <= n,
            n == codes.len(),
            events@ == old(events)@ + releases(codes@.reverse().take(i as int)),
        decreases n - i,
    {
        events.push(SinkEvent::Release(codes[n - 1 - i]));
        i += 1;
        assert(events@ =~= old(events)@ + releases(codes@.reverse().take(i as int)));
    }
    assert(codes@.reverse().take(n as int) =~= codes@.reverse());
}

/// Writes what takes the sink from `output` to `desired`.
fn push_reconcile(
    table: &MappingTable,
    output: &KeySet,
    desired: &KeySet,
    events: &mut Vec<SinkEvent>,
)
    ensures
        final(events)@ == old(events)@ + reconcile(table@, output@, desired@),
{
    let to_release = ordered(table, &output.difference(desired));
    let to_press = ordered(table, &desired.difference(output));
    push_releases_backwards(events, &to_release);
    push_presses(events, &to_press);
    events.push(SinkEvent::Sync);
    assert(events@ =~= old(events)@ + reconcile(table@, output@, desired@));
}

/// The keys that should be down on the sink while `held` is held.
pub fn compute_keys(table: &MappingTable, held: &KeySet) -> (desired: KeySet)
    ensures
        desired@ == desired_output(table@, held@),
{
    let ghost rules = table@;
    proof {
        lemma_remap_for(rules, held@);
    }
    let mut out = KeySet::new();
    let mut residue = held.clone();
    match table.remap_for(held) {
        Some(Mapping::Remap { input, output }) => {
            out = output.clone();
            residue = held.difference(input);
        },
        _ => {},
    }
    assert(out@ == produced(rules, held@));
    assert(residue@ == held@.difference(consumed(rules, held@)));
    let keys = residue.to_vec();
    proof {
        lemma_ascending(residue@);
    }
    let mut i: usize = 0;
    assert(out@ =~= produced(rules, held@).union(expansion_upto(rules, keys@, 0)));
    while i < keys.len()
        invariant
            i <= keys.len(),
            rules == table@,
            out@ == produced(rules, held@).union(expansion_upto(rules, keys@, i as int)),
        decreases keys.len() - i,
    {
        let k = keys[i];
        proof {
            lemma_dual_role_for(rules, k);
        }
        let ghost before = out@;
        match table.dual_role_for(k) {
            Some(Mapping::DualRole { hold, .. }) => {
                out.extend(hold);
            },
            _ => {
                out.insert(k);
            },
        }
        proof {
            assert(out@ =~= before.union(expansion(rules, k)));
            assert forall|c: KeyCode|
                expansion_upto(rules, keys@, i + 1).contains(c) <==> #[trigger] expansion_upto(
                    rules,
                    keys@,
                    i as int,
                ).union(expansion(rules, k)).contains(c) by {
                if expansion_upto(rules, keys@, i + 1).contains(c) {
                    let j = choose|j: int|
                        0 <= j < i + 1 && #[trigger] expansion(rules, keys@[j]).contains(c);
                }
                if expansion(rules, k).contains(c) {
                    assert(expansion(rules, keys@[i as int]).contains(c));
                }
            }
            assert(out@ =~= produced(rules, held@).union(expansion_upto(rules, keys@, i + 1)));
        }
        i += 1;
    }
    proof {
        assert forall|c: KeyCode|
            expansion_upto(rules, keys@, keys@.len() as int).contains(c) <==> expansion_of(
                rules,
                residue@,
            ).contains(c) by {
            if expansion_upto(rules, keys@, keys@.len() as int).contains(c) {
                let j = choose|j: int|
                    0 <= j < keys@.len() && #[trigger] expansion(rules, keys@[j]).contains(c);
                assert(keys@.contains(keys@[j]));
                assert(residue@.contains(keys@[j]));
            }
            if expansion_of(rules, residue@).contains(c) {
                let k = choose|k: KeyCode|
                    residue@.contains(k) && #[trigger] expansion(rules, k).contains(c);
                assert(keys@.contains(k));
                let j = choose|j: int| 0 <= j < keys@.len() && keys@[j] == k;
                assert(expansion(rules, keys@[j]).contains(c));
            }
        }
        assert(out@ =~= desired_output(rules, held@));
    }
    out
}

/// What holds of the state after every event: the key that may still become
/// a tap is down, and it has a DualRole rule.
pub open spec fn state_inv(rules: Seq<Rule>, st: EngineState) -> bool {
    st.tapping matches Some(k) ==> st.input_keys.contains(k) && dual_role_for(rules, k) is Some
}

/// The state machine between the source and the sink.
#[derive(Debug)]
pub struct Engine {
    table: MappingTable,
    input_keys: KeySet,
    output_keys: KeySet,
    tapping: Option<KeyCode>,
}

impl View for Engine {
    type V = EngineState;

    closed spec fn view(&self) -> EngineState {
        EngineState {
            input_keys: self.input_keys@,
            output_keys: self.output_keys@,
            tapping: self.tapping,
        }
    }
}

impl Engine {
    /// The rules that the engine applies.
    pub closed spec fn rules(&self) -> Seq<Rule> {
        self.table@
    }

    /// An engine for `table`, with no key down on either side.
    pub fn new(table: MappingTable) -> (engine: Engine)
        ensures
            engine.rules() == table@,
            engine@ == initial_state(),
    {
        Engine { table, input_keys: KeySet::new(), output_keys: KeySet::new(), tapping: None }
    }

    pub fn table(&self) -> (t: &MappingTable)
        ensures
            t@ == self.rules(),
    {
        &self.table
    }

    /// The physical keys that are down.
    pub fn input_keys(&self) -> (keys: &KeySet)
        ensures
            keys@ == self@.input_keys,
    {
        &self.input_keys
    }

    /// The keys that are down on the sink.
    pub fn output_keys(&self) -> (keys: &KeySet)
        ensures
            keys@ == self@.output_keys,
    {
        &self.output_keys
    }

    /// The DualRole key that may still become a tap.
    pub fn tapping(&self) -> (key: Option<KeyCode>)
        ensures
            key == self@.tapping,
    {
        self.tapping
    }

    /// Brings the sink in line with the keys that are down, and appends what that takes.
    fn compute_and_apply_keys(&mut self, events: &mut Vec<SinkEvent>)
        ensures
            final(self).rules() == old(self).rules(),
            final(self)@ == (EngineState {
                output_keys: desired_output(old(self).rules(), old(self)@.input_keys),
                ..old(self)@
            }),
            final(events)@ == old(events)@ + reconcile(
                old(self).rules(),
                old(self)@.output_keys,
                desired_output(old(self).rules(), old(self)@.input_keys),
            ),
    {
        let desired = compute_keys(&self.table, &self.input_keys);
        push_reconcile(&self.table, &self.output_keys, &desired, events);
        self.output_keys = desired;
    }

    /// Appends the events of a tap of `tap` and takes its keys off the sink.
    fn emit_tap(&mut self, tap: &KeySet, events: &mut Vec<SinkEvent>)
        ensures
            final(self).rules() == old(self).rules(),
            final(self)@ == (EngineState {
                output_keys: old(self)@.output_keys.difference(tap@),
                ..old(self)@
            }),
            final(events)@ == old(events)@ + tap_events(old(self).rules(), tap@),
    {
        let codes = ordered(&self.table, tap);
        push_presses(events, &codes);
        events.push(SinkEvent::Sync);
        push_releases_backwards(events, &codes);
        events.push(SinkEvent::Sync);
        let remaining = self.output_keys.difference(tap);
        self.output_keys = remaining;
        assert(events@ =~= old(events)@ + tap_events(old(self).rules(), tap@));
    }

    /// The keys that repeat on the sink when `key` repeats on the source.
    fn keys_to_repeat(&self, key: KeyCode) -> (codes: Vec<KeyCode>)
        ensures
            codes@ == repeat_codes(self.rules(), self@.input_keys, key),
    {
        proof {
            lemma_remap_for(self.rules(), self@.input_keys);
            lemma_dual_role_for(self.rules(), key);
        }
        match self.table.remap_for(&self.input_keys) {
            Some(Mapping::Remap { input, output }) => {
                if input.contains(key) {
                    return ordered(&self.table, output);
                }
            },
            _ => {},
        }
        match self.table.dual_role_for(key) {
            Some(Mapping::DualRole { hold, .. }) => ordered(&self.table, hold),
            _ => {
                let mut single = KeySet::new();
                single.insert(key);
                ordered(&self.table, &single)
            },
        }
    }

    /// Takes one key event of the source, with `value` as the device gave it
    /// (0 release, 1 press, 2 repeat), and returns what to write to the sink.
    pub fn update_with_event(&mut self, code: KeyCode, value: i32) -> (events: Vec<SinkEvent>)
        ensures
            final(self).rules() == old(self).rules(),
            (final(self)@, events@) == step(
                old(self).rules(),
                old(self)@,
                code,
                KeyEventType::spec_from_value(value),
            ),
            state_inv(old(self).rules(), old(self)@) ==> state_inv(final(self).rules(), final(self)@),
    {
        let ghost rules = self.rules();
        let ghost st = self@;
        proof {
            lemma_dual_role_for(rules, code);
        }
        let mut events: Vec<SinkEvent> = Vec::new();
        match KeyEventType::from_value(value) {
            KeyEventType::Press => {
                self.input_keys.insert(code);
                self.tapping = match self.table.dual_role_for(code) {
                    Some(_) => Some(code),
                    None => None,
                };
                self.compute_and_apply_keys(&mut events);
                assert(events@ =~= press_step(rules, st, code).1);
            },
            KeyEventType::Release => {
                self.input_keys.remove(code);
                let tapped = self.tapping == Some(code);
                if tapped {
                    self.tapping = None;
                }
                self.compute_and_apply_keys(&mut events);
                if tapped {
                    match self.table.dual_role_for(code) {
                        Some(Mapping::DualRole { tap, .. }) => {
                            let tap = tap.clone();
                            self.emit_tap(&tap, &mut events);
                        },
                        _ => {},
                    }
                }
                assert(events@ =~= release_step(rules, st, code).1);
            },
            KeyEventType::Repeat => {
                let codes = self.keys_to_repeat(code);
                push_repeats(&mut events, &codes);
                events.push(SinkEvent::Sync);
                assert(events@ =~= repeat_step(rules, st, code).1);
            },
            KeyEventType::Unknown(v) => {
                events.push(SinkEvent::Other { code, value: v });
                events.push(SinkEvent::Sync);
                assert(events@ =~= seq![SinkEvent::Other { code, value: v }, SinkEvent::Sync]);
            },
        }
        events
    }

    /// After the source reported lost events: takes the keys that are down
    /// now, as read from the device, gives up a pending tap, and returns what
    /// brings the sink in line.
    pub fn resync(&mut self, held: KeySet) -> (events: Vec<SinkEvent>)
        ensures
            final(self).rules() == old(self).rules(),
            (final(self)@, events@) == resync_step(old(self).rules(), old(self)@, held@),
            state_inv(final(self).rules(), final(self)@),
    {
        let mut events: Vec<SinkEvent> = Vec::new();
        self.input_keys = held;
        self.tapping = None;
        self.compute_and_apply_keys(&mut events);
        assert(events@ =~= resync_step(old(self).rules(), old(self)@, held@).1);
        events
    }

    /// Releases every key that is down on the sink, in one batch. For the
    /// way out: on shutdown and before a fatal error is reported.
    pub fn release_all(&mut self) -> (events: Vec<SinkEvent>)
        ensures
            final(self).rules() == old(self).rules(),
            (final(self)@, events@) == release_all_step(old(self).rules(), old(self)@),
            state_inv(old(self).rules(), old(self)@) ==> state_inv(final(self).rules(), final(self)@),
    {
        let mut events: Vec<SinkEvent> = Vec::new();
        let codes = ordered(&self.table, &self.output_keys);
        push_releases_backwards(&mut events, &codes);
        events.push(SinkEvent::Sync);
        self.output_keys = KeySet::new();
        assert(events@ =~= release_all_step(old(self).rules(), old(self)@).1);
        events
    }
}

} // verus!
