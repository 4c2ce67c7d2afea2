//! The mapping rules and the table of indices that the engine consults.
//!
//! A table is built once from the rules in the order in which they were
//! declared. Its view is that sequence of rules; what a lookup returns is
//! stated over it.

use crate::keys::{
    conventional_modifier, KEY_LEFTALT, KEY_LEFTCTRL, KEY_LEFTMETA, KEY_LEFTSHIFT, KEY_RIGHTALT,
    KEY_RIGHTCTRL, KEY_RIGHTMETA, KEY_RIGHTSHIFT,
};
use crate::keyset::{KeyCode, KeySet};
use std::collections::HashMap;
use vstd::prelude::*;

verus! {

broadcast use vstd::std_specs::hash::group_hash_axioms;

/// One rule of the configuration.
#[allow(inconsistent_fields)]
#[derive(Debug, PartialEq, Eq)]
pub enum Mapping {
    /// A key that acts as `hold` while it is held with other keys and emits
    /// `tap` when it is pressed and released alone.
    DualRole { input: KeyCode, hold: KeySet, tap: KeySet },
    /// While all of `input` is held, `output` is held instead.
    Remap { input: KeySet, output: KeySet },
}

/// A rule as a mathematical value.
#[allow(inconsistent_fields)]
pub ghost enum Rule {
    DualRole { input: KeyCode, hold: Set<KeyCode>, tap: Set<KeyCode> },
    Remap { input: Set<KeyCode>, output: Set<KeyCode> },
}

impl View for Mapping {
    type V = Rule;

    open spec fn view(&self) -> Rule {
        match self {
            Mapping::DualRole { input, hold, tap } => Rule::DualRole {
                input: *input,
                hold: hold@,
                tap: tap@,
            },
            Mapping::Remap { input, output } => Rule::Remap { input: input@, output: output@ },
        }
    }
}

impl Clone for Mapping {
    fn clone(&self) -> (r: Self)
        ensures
            r@ == self@,
    {
        match self {
            Mapping::DualRole { input, hold, tap } => Mapping::DualRole {
                input: *input,
                hold: hold.clone(),
                tap: tap.clone(),
            },
            Mapping::Remap { input, output } => Mapping::Remap {
                input: input.clone(),
                output: output.clone(),
            },
        }
    }
}

/// The rules of a vector, in its order.
pub open spec fn rules_of(v: Seq<Mapping>) -> Seq<Rule> {
    Seq::new(v.len(), |i: int| v[i]@)
}

/// Rule `i` is a Remap whose whole input is held.
pub open spec fn remap_matches(rules: Seq<Rule>, i: int, held: Set<KeyCode>) -> bool {
    &&& 0 <= i < rules.len()
    &&& rules[i] matches Rule::Remap { input, .. }
    &&& input.subset_of(held)
}

/// The number of keys in the input of a Remap.
pub open spec fn rule_chord_len(rule: Rule) -> nat {
    match rule {
        Rule::Remap { input, .. } => input.len(),
        Rule::DualRole { .. } => 0,
    }
}

/// The number of keys in the input of rule `i`, where it is a Remap.
pub open spec fn chord_len(rules: Seq<Rule>, i: int) -> nat {
    rule_chord_len(rules[i])
}

/// Rule `i` wins over rule `j`: its input is longer, or as long and it was declared first.
pub open spec fn precedes(rules: Seq<Rule>, i: int, j: int) -> bool {
    chord_len(rules, i) > chord_len(rules, j) || (chord_len(rules, i) == chord_len(rules, j) && i
        < j)
}

/// Rule `i` is the Remap to apply while `held` is held: it matches, and it
/// wins over every other Remap that matches.
pub open spec fn is_best_remap(rules: Seq<Rule>, i: int, held: Set<KeyCode>) -> bool {
    &&& remap_matches(rules, i, held)
    &&& forall|j: int| #[trigger] remap_matches(rules, j, held) && j != i ==> precedes(rules, i, j)
}

/// The index of the Remap to apply while `held` is held, if any matches.
pub open spec fn remap_for(rules: Seq<Rule>, held: Set<KeyCode>) -> Option<int> {
    if exists|i: int| is_best_remap(rules, i, held) {
        Some(choose|i: int| is_best_remap(rules, i, held))
    } else {
        None
    }
}

/// Rule `i` is a DualRole for `code`.
pub open spec fn dual_role_at(rules: Seq<Rule>, i: int, code: KeyCode) -> bool {
    &&& 0 <= i < rules.len()
    &&& rules[i] matches Rule::DualRole { input, .. }
    &&& input == code
}

/// Rule `i` is the first DualRole declared for `code`.
pub open spec fn is_first_dual_role(rules: Seq<Rule>, i: int, code: KeyCode) -> bool {
    &&& dual_role_at(rules, i, code)
    &&& forall|j: int| #[trigger] dual_role_at(rules, j, code) ==> i <= j
}

/// The index of the DualRole rule for `code`, if there is one.
pub open spec fn dual_role_for(rules: Seq<Rule>, code: KeyCode) -> Option<int> {
    if exists|i: int| is_first_dual_role(rules, i, code) {
        Some(choose|i: int| is_first_dual_role(rules, i, code))
    } else {
        None
    }
}

/// The codes that a rule can put on the sink.
pub open spec fn rule_outputs(rule: Rule) -> Set<KeyCode> {
    match rule {
        Rule::Remap { output, .. } => output,
        Rule::DualRole { hold, tap, .. } => hold.union(tap),
    }
}

/// The codes that a rule holds down on the sink as a modifier would be.
pub open spec fn rule_holds(rule: Rule) -> Set<KeyCode> {
    match rule {
        Rule::Remap { .. } => Set::empty(),
        Rule::DualRole { hold, .. } => hold,
    }
}

/// The code that alone makes up the left-hand side of a rule, where there is
/// one: the input of a DualRole, and the input of a Remap of a single key.
pub open spec fn rule_sole_inputs(rule: Rule) -> Set<KeyCode> {
    match rule {
        Rule::Remap { input, .. } => if input.len() == 1 {
            input
        } else {
            Set::empty()
        },
        Rule::DualRole { input, .. } => set![input],
    }
}

/// Every code of an `output`, `hold` or `tap` set among the first `n` rules.
pub open spec fn output_codes_upto(rules: Seq<Rule>, n: int) -> Set<KeyCode> {
    Set::new(
        |c: KeyCode| exists|i: int| 0 <= i < n && #[trigger] rule_outputs(rules[i]).contains(c),
    )
}

/// Every code of an `output`, `hold` or `tap` set.
pub open spec fn output_codes(rules: Seq<Rule>) -> Set<KeyCode> {
    output_codes_upto(rules, rules.len() as int)
}

/// The conventional modifiers and every code of a `hold` set among the first `n` rules.
pub open spec fn modifier_codes_upto(rules: Seq<Rule>, n: int) -> Set<KeyCode> {
    Set::new(
        |c: KeyCode|
            conventional_modifier(c) || exists|i: int|
                0 <= i < n && #[trigger] rule_holds(rules[i]).contains(c),
    )
}

/// The codes that are pressed before the others and released after them:
/// the conventional modifiers and every code of a `hold` set.
pub open spec fn modifier_codes(rules: Seq<Rule>) -> Set<KeyCode> {
    modifier_codes_upto(rules, rules.len() as int)
}

/// The codes that are the whole left-hand side of one of the first `n` rules.
pub open spec fn sole_inputs_upto(rules: Seq<Rule>, n: int) -> Set<KeyCode> {
    Set::new(
        |c: KeyCode| exists|i: int| 0 <= i < n && #[trigger] rule_sole_inputs(rules[i]).contains(c),
    )
}

/// The codes that are the whole left-hand side of some rule.
pub open spec fn sole_inputs(rules: Seq<Rule>) -> Set<KeyCode> {
    sole_inputs_upto(rules, rules.len() as int)
}

/// The codes that the virtual device must declare: every code that a rule can
/// emit, and every code of the source that is not the whole left-hand side of a rule.
pub open spec fn capability_set(rules: Seq<Rule>, source: Set<KeyCode>) -> Set<KeyCode> {
    output_codes(rules).union(source.difference(sole_inputs(rules)))
}

/// At most one rule is the best Remap.
pub proof fn lemma_best_remap_unique(rules: Seq<Rule>, held: Set<KeyCode>, i: int, j: int)
    requires
        is_best_remap(rules, i, held),
        is_best_remap(rules, j, held),
    ensures
        i == j,
{
}

/// Among the first `n` rules, the Remap that matches and wins over every
/// other one of them that matches, if any of them matches.
proof fn lemma_best_among(rules: Seq<Rule>, held: Set<KeyCode>, n: int) -> (best: Option<int>)
    requires
        0 <= n <= rules.len(),
    ensures
        match best {
            Some(i) => 0 <= i < n && remap_matches(rules, i, held) && forall|j: int|
                0 <= j < n && #[trigger] remap_matches(rules, j, held) && j != i ==> precedes(
                    rules,
                    i,
                    j,
                ),
            None => forall|j: int| 0 <= j < n ==> !remap_matches(rules, j, held),
        },
    decreases n,
{
    if n == 0 {
        None
    } else {
        let before = lemma_best_among(rules, held, n - 1);
        if remap_matches(rules, n - 1, held) {
            match before {
                Some(i) => if precedes(rules, i, n - 1) {
                    Some(i)
                } else {
                    Some(n - 1)
                },
                None => Some(n - 1),
            }
        } else {
            before
        }
    }
}

/// What `remap_for` returns: the one Remap that matches and wins over every
/// other that matches, or nothing where no Remap matches.
pub proof fn lemma_remap_for(rules: Seq<Rule>, held: Set<KeyCode>)
    ensures
        match remap_for(rules, held) {
            Some(i) => is_best_remap(rules, i, held),
            None => forall|i: int| !remap_matches(rules, i, held),
        },
        forall|i: int| is_best_remap(rules, i, held) ==> remap_for(rules, held) == Some(i),
{
    assert forall|i: int| is_best_remap(rules, i, held) implies remap_for(rules, held) == Some(
        i,
    ) by {
        let k = choose|k: int| is_best_remap(rules, k, held);
        lemma_best_remap_unique(rules, held, i, k);
    }
    if remap_for(rules, held) is None {
        match lemma_best_among(rules, held, rules.len() as int) {
            Some(i) => {
                assert(is_best_remap(rules, i, held));
            },
            None => {},
        }
    }
}

/// What `dual_role_for` returns: the first DualRole declared for the code, or
/// nothing where none is declared.
pub proof fn lemma_dual_role_for(rules: Seq<Rule>, code: KeyCode)
    ensures
        match dual_role_for(rules, code) {
            Some(i) => is_first_dual_role(rules, i, code),
            None => forall|i: int| !dual_role_at(rules, i, code),
        },
        forall|i: int| is_first_dual_role(rules, i, code) ==> dual_role_for(rules, code) == Some(i),
{
    assert forall|i: int| is_first_dual_role(rules, i, code) implies dual_role_for(rules, code)
        == Some(i) by {
        let k = choose|k: int| is_first_dual_role(rules, k, code);
        assert(dual_role_at(rules, k, code) && dual_role_at(rules, i, code));
    }
    if dual_role_for(rules, code) is None {
        assert forall|i: int| !dual_role_at(rules, i, code) by {
            if dual_role_at(rules, i, code) {
                lemma_first_dual_role_exists(rules, code, i);
            }
        }
    }
}

/// Where a DualRole is declared for a code, one of them is the first.
proof fn lemma_first_dual_role_exists(rules: Seq<Rule>, code: KeyCode, i: int)
    requires
        dual_role_at(rules, i, code),
    ensures
        exists|k: int| is_first_dual_role(rules, k, code),
    decreases i,
{
    if exists|j: int| dual_role_at(rules, j, code) && j < i {
        let j = choose|j: int| dual_role_at(rules, j, code) && j < i;
        lemma_first_dual_role_exists(rules, code, j);
    } else {
        assert(is_first_dual_role(rules, i, code));
    }
}

/// Rule `i` is a Remap.
pub open spec fn remap_at(rules: Seq<Rule>, i: int) -> bool {
    0 <= i < rules.len() && rules[i] is Remap
}

/// `ord` lists the Remaps among the first `n` rules, each before those that it wins over.
spec fn remap_order(rules: Seq<Rule>, n: int, ord: Seq<usize>) -> bool {
    &&& forall|p: int| 0 <= p < ord.len() ==> (#[trigger] ord[p]) < n && remap_at(rules, ord[p] as int)
    &&& forall|p: int, q: int|
        0 <= p < q < ord.len() ==> precedes(rules, #[trigger] ord[p] as int, #[trigger] ord[q] as int)
    &&& forall|i: int| 0 <= i < n && #[trigger] remap_at(rules, i) ==> ord.contains(i as usize)
}

/// `m` maps each code that has a DualRole among the first `n` rules to the first of them.
spec fn dual_index(rules: Seq<Rule>, n: int, m: Map<KeyCode, usize>) -> bool {
    &&& forall|code: KeyCode| #[trigger]
        m.contains_key(code) ==> m[code] < n && dual_role_at(rules, m[code] as int, code)
    &&& forall|code: KeyCode, j: int|
        m.contains_key(code) && #[trigger] dual_role_at(rules, j, code) && j < n ==> m[code] <= j
    &&& forall|code: KeyCode, j: int|
        #[trigger] dual_role_at(rules, j, code) && j < n ==> m.contains_key(code)
}

/// The number of keys in the input of a Remap.
fn chord_size(m: &Mapping) -> (n: usize)
    ensures
        n == rule_chord_len(m@),
{
    match m {
        Mapping::Remap { input, .. } => input.len(),
        Mapping::DualRole { .. } => 0,
    }
}

/// The Remaps of `rules` by the length of their input, longest first, and
/// among equally long ones in the order of declaration.
fn build_remap_order(rules: &Vec<Mapping>) -> (ord: Vec<usize>)
    ensures
        remap_order(rules_of(rules@), rules.len() as int, ord@),
{
    let ghost rs = rules_of(rules@);
    let mut ord: Vec<usize> = Vec::new();
    let mut i: usize = 0;
    while i < rules.len()
        invariant
            i <= rules.len(),
            rs == rules_of(rules@),
            remap_order(rs, i as int, ord@),
        decreases rules.len() - i,
    {
        let n = chord_size(&rules[i]);
        let is_remap = match &rules[i] {
            Mapping::Remap { .. } => true,
            Mapping::DualRole { .. } => false,
        };
        if is_remap {
            let mut p: usize = 0;
            while p < ord.len() && chord_size(&rules[ord[p]]) >= n
                invariant
                    p <= ord.len(),
                    i < rules.len(),
                    rs == rules_of(rules@),
                    remap_order(rs, i as int, ord@),
                    forall|q: int| 0 <= q < p ==> chord_len(rs, #[trigger] ord@[q] as int) >= n,
                decreases ord.len() - p,
            {
                p += 1;
            }
            let ghost before = ord@;
            ord.insert(p, i);
            proof {
                let after = ord@;
                assert(after =~= before.insert(p as int, i));
                assert(chord_len(rs, i as int) == n);
                assert forall|q: int| p <= q < before.len() implies chord_len(
                    rs,
                    #[trigger] before[q] as int,
                ) < n by {
                    if q > p {
                        assert(precedes(rs, before[p as int] as int, before[q] as int));
                    }
                }
                assert forall|a: int, b: int| 0 <= a < b < after.len() implies precedes(
                    rs,
                    #[trigger] after[a] as int,
                    #[trigger] after[b] as int,
                ) by {
                    if b < p {
                        assert(after[a] == before[a] && after[b] == before[b]);
                    } else if b == p {
                        assert(after[a] == before[a]);
                        assert(before[a] < i);
                    } else if a < p {
                        assert(after[a] == before[a] && after[b] == before[b - 1]);
                    } else if a == p {
                        assert(after[b] == before[b - 1]);
                    } else {
                        assert(after[a] == before[a - 1] && after[b] == before[b - 1]);
                    }
                }
                assert forall|q: int| 0 <= q < after.len() implies (#[trigger] after[q]) < i + 1
                    && remap_at(rs, after[q] as int) by {
                    if q < p {
                        assert(after[q] == before[q]);
                    } else if q > p {
                        assert(after[q] == before[q - 1]);
                    }
                }
                assert forall|j: int| 0 <= j < i + 1 && #[trigger] remap_at(rs, j) implies after.contains(
                    j as usize,
                ) by {
                    if j == i {
                        assert(after[p as int] == i);
                    } else {
                        assert(before.contains(j as usize));
                        let q = choose|q: int| 0 <= q < before.len() && before[q] == j as usize;
                        if q < p {
                            assert(after[q] == j as usize);
                        } else {
                            assert(after[q + 1] == j as usize);
                        }
                    }
                }
            }
        }
        i += 1;
    }
    ord
}

/// For each code that has a DualRole rule, the index of the first one declared for it.
fn build_dual_index(rules: &Vec<Mapping>) -> (m: HashMap<KeyCode, usize>)
    ensures
        dual_index(rules_of(rules@), rules.len() as int, m@),
{
    let ghost rs = rules_of(rules@);
    let mut m: HashMap<KeyCode, usize> = HashMap::new();
    let mut i: usize = 0;
    while i < rules.len()
        invariant
            i <= rules.len(),
            rs == rules_of(rules@),
            dual_index(rs, i as int, m@),
        decreases rules.len() - i,
    {
        match &rules[i] {
            Mapping::DualRole { input, .. } => {
                if !m.contains_key(input) {
                    m.insert(*input, i);
                }
            },
            Mapping::Remap { .. } => {},
        }
        i += 1;
    }
    m
}

/// The codes that the rules can emit, the codes that count as modifiers, and
/// the codes that are the whole left-hand side of a rule.
fn build_code_sets(rules: &Vec<Mapping>) -> (r: (KeySet, KeySet, KeySet))
    ensures
        r.0@ == output_codes(rules_of(rules@)),
        r.1@ == modifier_codes(rules_of(rules@)),
        r.2@ == sole_inputs(rules_of(rules@)),
{
    let ghost rs = rules_of(rules@);
    let mut outputs = KeySet::new();
    let mut soles = KeySet::new();
    let mut modifiers = KeySet::new();
    modifiers.insert(KEY_LEFTCTRL);
    modifiers.insert(KEY_RIGHTCTRL);
    modifiers.insert(KEY_LEFTSHIFT);
    modifiers.insert(KEY_RIGHTSHIFT);
    modifiers.insert(KEY_LEFTALT);
    modifiers.insert(KEY_RIGHTALT);
    modifiers.insert(KEY_LEFTMETA);
    modifiers.insert(KEY_RIGHTMETA);
    assert(outputs@ =~= output_codes_upto(rs, 0));
    assert(soles@ =~= sole_inputs_upto(rs, 0));
    assert(modifiers@ =~= modifier_codes_upto(rs, 0));
    let mut i: usize = 0;
    while i < rules.len()
        invariant
            i <= rules.len(),
            rs == rules_of(rules@),
            outputs@ == output_codes_upto(rs, i as int),
            modifiers@ == modifier_codes_upto(rs, i as int),
            soles@ == sole_inputs_upto(rs, i as int),
        decreases rules.len() - i,
    {
        let ghost rule = rs[i as int];
        match &rules[i] {
            Mapping::DualRole { input, hold, tap } => {
                outputs.extend(hold);
                outputs.extend(tap);
                modifiers.extend(hold);
                soles.insert(*input);
            },
            Mapping::Remap { input, output } => {
                outputs.extend(output);
                if input.len() == 1 {
                    soles.extend(input);
                }
            },
        }
        proof {
            assert(outputs@ =~= output_codes_upto(rs, i as int).union(rule_outputs(rule)));
            assert(modifiers@ =~= modifier_codes_upto(rs, i as int).union(rule_holds(rule)));
            assert(soles@ =~= sole_inputs_upto(rs, i as int).union(rule_sole_inputs(rule)));
            assert forall|c: KeyCode|
                output_codes_upto(rs, i + 1).contains(c) <==> #[trigger] output_codes_upto(
                    rs,
                    i as int,
                ).union(rule_outputs(rule)).contains(c) by {
                if output_codes_upto(rs, i + 1).contains(c) {
                    let j = choose|j: int| 0 <= j < i + 1 && #[trigger] rule_outputs(rs[j]).contains(c);
                }
                if rule_outputs(rule).contains(c) {
                    assert(rule_outputs(rs[i as int]).contains(c));
                }
            }
            assert(outputs@ =~= output_codes_upto(rs, i + 1));
            assert forall|c: KeyCode|
                modifier_codes_upto(rs, i + 1).contains(c) <==> #[trigger] modifier_codes_upto(
                    rs,
                    i as int,
                ).union(rule_holds(rule)).contains(c) by {
                if modifier_codes_upto(rs, i + 1).contains(c) && !conventional_modifier(c) {
                    let j = choose|j: int| 0 <= j < i + 1 && #[trigger] rule_holds(rs[j]).contains(c);
                }
                if rule_holds(rule).contains(c) {
                    assert(rule_holds(rs[i as int]).contains(c));
                }
            }
            assert(modifiers@ =~= modifier_codes_upto(rs, i + 1));
            assert forall|c: KeyCode|
                sole_inputs_upto(rs, i + 1).contains(c) <==> #[trigger] sole_inputs_upto(
                    rs,
                    i as int,
                ).union(rule_sole_inputs(rule)).contains(c) by {
                if sole_inputs_upto(rs, i + 1).contains(c) {
                    let j = choose|j: int|
                        0 <= j < i + 1 && #[trigger] rule_sole_inputs(rs[j]).contains(c);
                }
                if rule_sole_inputs(rule).contains(c) {
                    assert(rule_sole_inputs(rs[i as int]).contains(c));
                }
            }
            assert(soles@ =~= sole_inputs_upto(rs, i + 1));
        }
        i += 1;
    }
    (outputs, modifiers, soles)
}

/// The rules of a configuration with the indices that make lookups cheap:
/// the Remaps by descending input length, the DualRoles by their code, and
/// the sets of codes that the rules emit, treat as modifiers, or take as
/// their whole left-hand side.
#[derive(Debug)]
pub struct MappingTable {
    rules: Vec<Mapping>,
    remap_by_length_desc: Vec<usize>,
    dual_role_by_code: HashMap<KeyCode, usize>,
    outputs: KeySet,
    modifiers: KeySet,
    soles: KeySet,
}

impl View for MappingTable {
    type V = Seq<Rule>;

    closed spec fn view(&self) -> Seq<Rule> {
        rules_of(self.rules@)
    }
}

impl MappingTable {
    #[verifier::type_invariant]
    spec fn indexed(&self) -> bool {
        &&& remap_order(self@, self.rules@.len() as int, self.remap_by_length_desc@)
        &&& dual_index(self@, self.rules@.len() as int, self.dual_role_by_code@)
        &&& self.outputs@ == output_codes(self@)
        &&& self.modifiers@ == modifier_codes(self@)
        &&& self.soles@ == sole_inputs(self@)
    }

    /// The table of `mappings`, which are taken in the order of their declaration.
    pub fn new(mappings: Vec<Mapping>) -> (table: MappingTable)
        ensures
            table@ == rules_of(mappings@),
    {
        let remap_by_length_desc = build_remap_order(&mappings);
        let dual_role_by_code = build_dual_index(&mappings);
        let (outputs, modifiers, soles) = build_code_sets(&mappings);
        MappingTable {
            rules: mappings,
            remap_by_length_desc,
            dual_role_by_code,
            outputs,
            modifiers,
            soles,
        }
    }

    /// The rules, in the order of their declaration.
    pub fn rules(&self) -> (r: &Vec<Mapping>)
        ensures
            rules_of(r@) == self@,
    {
        &self.rules
    }

    /// The Remap to apply while `held` is held: the one with the longest
    /// input among those whose whole input is held, and among equally long
    /// ones the one declared first.
    pub fn remap_for(&self, held: &KeySet) -> (r: Option<&Mapping>)
        ensures
            match r {
                Some(m) => remap_for(self@, held@) matches Some(i) && m@ == self@[i],
                None => remap_for(self@, held@) is None,
            },
            r is None <==> forall|i: int| !remap_matches(self@, i, held@),
    {
        proof {
            use_type_invariant(self);
            lemma_remap_for(self@, held@);
        }
        let ghost rs = self@;
        let n = self.rules.len();
        let mut p: usize = 0;
        while p < self.remap_by_length_desc.len()
            invariant
                p <= self.remap_by_length_desc@.len(),
                n == self.rules@.len(),
                rs == self@,
                rs == rules_of(self.rules@),
                remap_order(rs, self.rules@.len() as int, self.remap_by_length_desc@),
                forall|q: int|
                    0 <= q < p ==> !remap_matches(
                        rs,
                        #[trigger] self.remap_by_length_desc@[q] as int,
                        held@,
                    ),
            decreases self.remap_by_length_desc@.len() - p,
        {
            let i = self.remap_by_length_desc[p];
            assert(remap_at(rs, i as int));
            let rule = &self.rules[i];
            let found = match rule {
                Mapping::Remap { input, .. } => input.is_subset(held),
                Mapping::DualRole { .. } => false,
            };
            if found {
                proof {
                    assert(remap_matches(rs, i as int, held@));
                    assert forall|j: int| #[trigger]
                        remap_matches(rs, j, held@) && j != i implies precedes(rs, i as int, j) by {
                        assert(remap_at(rs, j));
                        assert(0 <= j < self.rules@.len());
                        let ord = self.remap_by_length_desc@;
                        assert(ord.contains(j as usize));
                        let q = choose|q: int| 0 <= q < ord.len() && ord[q] == j as usize;
                        if q < p {
                            assert(!remap_matches(rs, ord[q] as int, held@));
                        } else if q > p {
                            assert(precedes(rs, ord[p as int] as int, ord[q] as int));
                        }
                    }
                    assert(is_best_remap(rs, i as int, held@));
                }
                return Some(rule);
            }
            p += 1;
        }
        proof {
            assert forall|j: int| !remap_matches(rs, j, held@) by {
                if remap_matches(rs, j, held@) {
                    assert(remap_at(rs, j));
                    assert(0 <= j < self.rules@.len());
                    let ord = self.remap_by_length_desc@;
                    assert(ord.contains(j as usize));
                    let q = choose|q: int| 0 <= q < ord.len() && ord[q] == j as usize;
                    assert(!remap_matches(rs, ord[q] as int, held@));
                }
            }
        }
        None
    }

    /// The DualRole rule for `code`: the first one declared with that input.
    pub fn dual_role_for(&self, code: KeyCode) -> (r: Option<&Mapping>)
        ensures
            match r {
                Some(m) => dual_role_for(self@, code) matches Some(i) && m@ == self@[i],
                None => dual_role_for(self@, code) is None,
            },
            r is None <==> forall|i: int| !dual_role_at(self@, i, code),
    {
        proof {
            use_type_invariant(self);
            lemma_dual_role_for(self@, code);
        }
        match self.dual_role_by_code.get(&code) {
            Some(i) => {
                proof {
                    assert(self.dual_role_by_code@.contains_key(code));
                    assert(dual_role_at(self@, *i as int, code));
                    assert(is_first_dual_role(self@, *i as int, code));
                }
                Some(&self.rules[*i])
            },
            None => {
                proof {
                    assert(!self.dual_role_by_code@.contains_key(code));
                    assert forall|j: int| !dual_role_at(self@, j, code) by {
                        if dual_role_at(self@, j, code) {
                            assert(self.dual_role_by_code@.contains_key(code));
                        }
                    }
                }
                None
            },
        }
    }

    /// Whether `code` is pressed before the other keys and released after them.
    pub fn is_modifier(&self, code: KeyCode) -> (b: bool)
        ensures
            b == modifier_codes(self@).contains(code),
    {
        proof {
            use_type_invariant(self);
        }
        self.modifiers.contains(code)
    }

    /// The codes that count as modifiers.
    pub fn modifiers(&self) -> (r: &KeySet)
        ensures
            r@ == modifier_codes(self@),
    {
        proof {
            use_type_invariant(self);
        }
        &self.modifiers
    }

    /// Every code that a rule can emit.
    pub fn output_codes(&self) -> (r: &KeySet)
        ensures
            r@ == output_codes(self@),
    {
        proof {
            use_type_invariant(self);
        }
        &self.outputs
    }

    /// The codes that the virtual device has to declare when it is created
    /// for a source that advertises `source`.
    pub fn capabilities(&self, source: &KeySet) -> (caps: KeySet)
        ensures
            caps@ == capability_set(self@, source@),
    {
        proof {
            use_type_invariant(self);
        }
        let mut caps = source.difference(&self.soles);
        caps.extend(&self.outputs);
        assert(caps@ =~= capability_set(self@, source@));
        caps
    }
}

} // verus!
