//! The configuration: which device to grab and the rules to apply.
//!
//! The configuration file names keys by their text. Whoever reads the file
//! looks each name up and hands the rules over with the code of every key
//! whose name is known; this module refuses a configuration that names an
//! unknown key and builds the rules of the others.

use crate::keyset::{KeyCode, KeySet};
use crate::mapping::{rules_of, Mapping, Rule};
use vstd::prelude::*;

verus! {

/// A key as the configuration names it, with its code where the name is known.
#[derive(Debug, Clone, PartialEq, Eq)]
pub struct KeyRef {
    pub name: String,
    pub code: Option<KeyCode>,
}

/// A `dual_role` entry of the configuration.
#[derive(Debug, Clone, PartialEq, Eq)]
pub struct RawDualRole {
    pub input: KeyRef,
    pub hold: Vec<KeyRef>,
    pub tap: Vec<KeyRef>,
}

/// A `remap` entry of the configuration.
#[derive(Debug, Clone, PartialEq, Eq)]
pub struct RawRemap {
    pub input: Vec<KeyRef>,
    pub output: Vec<KeyRef>,
}

/// The configuration as it is read.
#[derive(Debug, Clone, PartialEq, Eq)]
pub struct RawConfig {
    pub device_name: Option<String>,
    pub phys: Option<String>,
    pub path: Option<String>,
    pub dual_role: Vec<RawDualRole>,
    pub remap: Vec<RawRemap>,
}

/// Why a configuration is refused.
#[derive(Debug, Clone, PartialEq, Eq)]
pub enum ConfigError {
    /// The configuration names a key that does not exist.
    UnknownKey(String),
}

/// The configuration that the engine runs with.
#[derive(Debug, Clone, PartialEq, Eq)]
pub struct MappingConfig {
    pub device_name: Option<String>,
    pub phys: Option<String>,
    pub path: Option<String>,
    /// The rules, `dual_role` entries first, each list in its order.
    pub mappings: Vec<Mapping>,
}

/// The name of the first key of `keys` whose name is not known.
pub open spec fn first_unknown(keys: Seq<KeyRef>) -> Option<String>
    decreases keys.len(),
{
    if keys.len() == 0 {
        None
    } else if keys[0].code is None {
        Some(keys[0].name)
    } else {
        first_unknown(keys.drop_first())
    }
}

/// The codes of the keys of `keys` whose names are known.
pub open spec fn codes_of(keys: Seq<KeyRef>) -> Set<KeyCode> {
    Set::new(|c: KeyCode| exists|i: int| 0 <= i < keys.len() && #[trigger] keys[i].code == Some(c))
}

/// The first unknown name of a `dual_role` entry: of its input, else of its
/// `hold` list, else of its `tap` list.
pub open spec fn dual_unknown(d: RawDualRole) -> Option<String> {
    if d.input.code is None {
        Some(d.input.name)
    } else if first_unknown(d.hold@) is Some {
        first_unknown(d.hold@)
    } else {
        first_unknown(d.tap@)
    }
}

/// The first unknown name of a `remap` entry: of its input, else of its output.
pub open spec fn remap_unknown(r: RawRemap) -> Option<String> {
    if first_unknown(r.input@) is Some {
        first_unknown(r.input@)
    } else {
        first_unknown(r.output@)
    }
}

/// The rule that a `dual_role` entry declares.
pub open spec fn dual_rule(d: RawDualRole) -> Rule {
    Rule::DualRole { input: d.input.code.unwrap(), hold: codes_of(d.hold@), tap: codes_of(d.tap@) }
}

/// The rule that a `remap` entry declares.
pub open spec fn remap_rule(r: RawRemap) -> Rule {
    Rule::Remap { input: codes_of(r.input@), output: codes_of(r.output@) }
}

/// The first unknown name among `dual_role` entries.
pub open spec fn duals_unknown(ds: Seq<RawDualRole>) -> Option<String>
    decreases ds.len(),
{
    if ds.len() == 0 {
        None
    } else if dual_unknown(ds[0]) is Some {
        dual_unknown(ds[0])
    } else {
        duals_unknown(ds.drop_first())
    }
}

/// The first unknown name among `remap` entries.
pub open spec fn remaps_unknown(rs: Seq<RawRemap>) -> Option<String>
    decreases rs.len(),
{
    if rs.len() == 0 {
        None
    } else if remap_unknown(rs[0]) is Some {
        remap_unknown(rs[0])
    } else {
        remaps_unknown(rs.drop_first())
    }
}

/// The first unknown name of a configuration, the `dual_role` entries before the `remap` entries.
pub open spec fn config_unknown(raw: RawConfig) -> Option<String> {
    if duals_unknown(raw.dual_role@) is Some {
        duals_unknown(raw.dual_role@)
    } else {
        remaps_unknown(raw.remap@)
    }
}

/// The rules of a configuration, the `dual_role` entries before the `remap` entries.
pub open spec fn config_rules(raw: RawConfig) -> Seq<Rule> {
    Seq::new(
        raw.dual_role@.len() + raw.remap@.len(),
        |i: int|
            if i < raw.dual_role@.len() {
                dual_rule(raw.dual_role@[i])
            } else {
                remap_rule(raw.remap@[i - raw.dual_role@.len()])
            },
    )
}

/// The set of the codes of `keys`, or the first name among them that is not known.
pub fn resolve_keys(keys: &Vec<KeyRef>) -> (r: Result<KeySet, ConfigError>)
    ensures
        match r {
            Ok(set) => first_unknown(keys@) is None && set@ == codes_of(keys@),
            Err(ConfigError::UnknownKey(name)) => first_unknown(keys@) == Some(name),
        },
{
    let mut set = KeySet::new();
    let mut i: usize = 0;
    assert(keys@.skip(0) =~= keys@);
    assert(set@ =~= codes_of(keys@.take(0)));
    while i < keys.len()
        invariant
            i <= keys.len(),
            first_unknown(keys@) == first_unknown(keys@.skip(i as int)),
            set@ == codes_of(keys@.take(i as int)),
        decreases keys.len() - i,
    {
        let ghost rest = keys@.skip(i as int);
        assert(rest[0] == keys@[i as int]);
        assert(rest.drop_first() =~= keys@.skip(i + 1));
        match keys[i].code {
            Some(code) => {
                set.insert(code);
                proof {
                    let before = keys@.take(i as int);
                    let after = keys@.take(i + 1);
                    assert forall|c: KeyCode|
                        codes_of(after).contains(c) <==> #[trigger] codes_of(before).insert(
                            code,
                        ).contains(c) by {
                        if codes_of(after).contains(c) {
                            let j = choose|j: int|
                                0 <= j < after.len() && #[trigger] after[j].code == Some(c);
                            if j < i {
                                assert(before[j].code == Some(c));
                            }
                        }
                        if codes_of(before).contains(c) {
                            let j = choose|j: int|
                                0 <= j < before.len() && #[trigger] before[j].code == Some(c);
                            assert(after[j].code == Some(c));
                        }
                        if c == code {
                            assert(after[i as int].code == Some(c));
                        }
                    }
                    assert(set@ =~= codes_of(after));
                }
            },
            None => {
                return Err(ConfigError::UnknownKey(keys[i].name.clone()));
            },
        }
        i += 1;
    }
    assert(keys@.take(keys.len() as int) =~= keys@);
    Ok(set)
}

/// The rule of a `dual_role` entry, or the first unknown name in it.
pub fn resolve_dual_role(d: &RawDualRole) -> (r: Result<Mapping, ConfigError>)
    ensures
        match r {
            Ok(m) => dual_unknown(*d) is None && m@ == dual_rule(*d),
            Err(ConfigError::UnknownKey(name)) => dual_unknown(*d) == Some(name),
        },
{
    let input = match d.input.code {
        Some(code) => code,
        None => {
            return Err(ConfigError::UnknownKey(d.input.name.clone()));
        },
    };
    let hold = match resolve_keys(&d.hold) {
        Ok(set) => set,
        Err(e) => {
            return Err(e);
        },
    };
    let tap = match resolve_keys(&d.tap) {
        Ok(set) => set,
        Err(e) => {
            return Err(e);
        },
    };
    Ok(Mapping::DualRole { input, hold, tap })
}

/// The rule of a `remap` entry, or the first unknown name in it.
pub fn resolve_remap(r: &RawRemap) -> (res: Result<Mapping, ConfigError>)
    ensures
        match res {
            Ok(m) => remap_unknown(*r) is None && m@ == remap_rule(*r),
            Err(ConfigError::UnknownKey(name)) => remap_unknown(*r) == Some(name),
        },
{
    let input = match resolve_keys(&r.input) {
        Ok(set) => set,
        Err(e) => {
            return Err(e);
        },
    };
    let output = match resolve_keys(&r.output) {
        Ok(set) => set,
        Err(e) => {
            return Err(e);
        },
    };
    Ok(Mapping::Remap { input, output })
}

impl MappingConfig {
    /// The configuration that `raw` declares, or the first unknown key name in it.
    pub fn from_raw(raw: RawConfig) -> (r: Result<MappingConfig, ConfigError>)
        ensures
            match r {
                Ok(config) => {
                    &&& config_unknown(raw) is None
                    &&& rules_of(config.mappings@) == config_rules(raw)
                    &&& config.device_name == raw.device_name
                    &&& config.phys == raw.phys
                    &&& config.path == raw.path
                },
                Err(ConfigError::UnknownKey(name)) => config_unknown(raw) == Some(name),
            },
    {
        let mut mappings: Vec<Mapping> = Vec::new();
        let ghost ds = raw.dual_role@;
        let ghost rs = raw.remap@;
        let mut i: usize = 0;
        assert(ds.skip(0) =~= ds);
        while i < raw.dual_role.len()
            invariant
                i <= raw.dual_role.len(),
                ds == raw.dual_role@,
                duals_unknown(ds) == duals_unknown(ds.skip(i as int)),
                mappings@.len() == i,
                forall|j: int| 0 <= j < i ==> (#[trigger] mappings@[j])@ == dual_rule(ds[j]),
            decreases raw.dual_role.len() - i,
        {
            let ghost rest = ds.skip(i as int);
            assert(rest[0] == ds[i as int]);
            assert(rest.drop_first() =~= ds.skip(i + 1));
            match resolve_dual_role(&raw.dual_role[i]) {
                Ok(m) => {
                    mappings.push(m);
                },
                Err(e) => {
                    return Err(e);
                },
            }
            i += 1;
        }
        let n = raw.dual_role.len();
        let mut k: usize = 0;
        assert(rs.skip(0) =~= rs);
        while k < raw.remap.len()
            invariant
                k <= raw.remap.len(),
                n == ds.len(),
                ds == raw.dual_role@,
                rs == raw.remap@,
                duals_unknown(ds) is None,
                remaps_unknown(rs) == remaps_unknown(rs.skip(k as int)),
                mappings@.len() == n + k,
                forall|j: int| 0 <= j < n ==> (#[trigger] mappings@[j])@ == dual_rule(ds[j]),
                forall|j: int| n <= j < n + k ==> (#[trigger] mappings@[j])@ == remap_rule(rs[j - n]),
            decreases raw.remap.len() - k,
        {
            let ghost rest = rs.skip(k as int);
            assert(rest[0] == rs[k as int]);
            assert(rest.drop_first() =~= rs.skip(k + 1));
            match resolve_remap(&raw.remap[k]) {
                Ok(m) => {
                    mappings.push(m);
                },
                Err(e) => {
                    return Err(e);
                },
            }
            k += 1;
        }
        assert(rules_of(mappings@) =~= config_rules(raw));
        Ok(
            MappingConfig {
                device_name: raw.device_name,
                phys: raw.phys,
                path: raw.path,
                mappings,
            },
        )
    }

    /// Replaces each hint for which the command line gives a value.
    pub fn apply_overrides(
        &mut self,
        device_name: Option<String>,
        phys: Option<String>,
        path: Option<String>,
    )
        ensures
            final(self).device_name == if device_name is Some {
                device_name
            } else {
                old(self).device_name
            },
            final(self).phys == if phys is Some {
                phys
            } else {
                old(self).phys
            },
            final(self).path == if path is Some {
                path
            } else {
                old(self).path
            },
            final(self).mappings == old(self).mappings,
    {
        if device_name.is_some() {
            self.device_name = device_name;
        }
        if phys.is_some() {
            self.phys = phys;
        }
        if path.is_some() {
            self.path = path;
        }
    }
}

} // verus!
