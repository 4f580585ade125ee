//! The section projector and the resolution driver: picking, per server,
//! exactly one of the dynamic, legacy and static settings sources.

use vstd::prelude::*;

use crate::config::DynamicConfig;
use crate::config::ServerConfig;
use crate::config::ServerConfigView;
use crate::config::config_views;
use crate::insert::find_key;
use crate::value::SettingsValue;
use crate::value::Val;
use crate::value::assoc_get;
use crate::value::entry_views;
use crate::value::lemma_assoc_index;
use crate::value::lemma_entry_views;

verus! {

broadcast use vstd::std_specs::vec::group_vec_axioms, vstd::seq::group_seq_axioms;

/// The view of an optional settings tree.
pub open spec fn opt_tree_view(settings: Option<&SettingsValue>) -> Option<Val> {
    match settings {
        Option::Some(v) => Some(v@),
        Option::None => None,
    }
}

/// The view of an optional section name.
pub open spec fn opt_name_view(section: Option<&String>) -> Option<Seq<char>> {
    match section {
        Option::Some(s) => Some(s@),
        Option::None => None,
    }
}

/// The view of an owned optional settings value.
pub open spec fn opt_value_view(v: Option<SettingsValue>) -> Option<Val> {
    match v {
        Option::Some(x) => Some(x@),
        Option::None => None,
    }
}

/// What projecting a section out of a settings tree yields: the value at the
/// named top-level key, and nothing when the tree is absent, the name is
/// absent, the tree is not an object, or the key is missing.
pub open spec fn spec_section(settings: Option<Val>, section: Option<Seq<char>>) -> Option<Val> {
    match (settings, section) {
        (Option::Some(tree), Option::Some(name)) => if tree is Obj {
            assoc_get(tree->Obj_0, name)
        } else {
            None
        },
        _ => None,
    }
}

/// Projects one level out of a settings tree: a copy of the value at the
/// configured top-level key, when both the tree and the section name are
/// given and the key is present.
pub fn configured_section(settings: Option<&SettingsValue>, section: Option<&String>) -> (r:
    Option<SettingsValue>)
    ensures
        opt_value_view(r) == spec_section(opt_tree_view(settings), opt_name_view(section)),
{
    match (settings, section) {
        (Some(tree), Some(name)) => match tree {
            SettingsValue::Object(entries) => {
                proof {
                    lemma_entry_views(entries@);
                }
                match find_key(entries, name) {
                    Some(i) => {
                        proof {
                            lemma_assoc_index(entry_views(entries@), name@);
                        }
                        Some(entries[i].1.deep_copy())
                    },
                    None => {
                        proof {
                            lemma_assoc_index(entry_views(entries@), name@);
                        }
                        None
                    },
                }
            },
            _ => None,
        },
        _ => None,
    }
}

/// What resolving one server yields: the dynamic source's projected
/// settings when that projection yields a value; else the legacy override
/// when there is one; else the static source's projected settings. The
/// section name always comes from the static record.
pub open spec fn spec_resolve(
    name: Seq<char>,
    dynamic: Seq<(Seq<char>, ServerConfigView)>,
    stat: Seq<(Seq<char>, ServerConfigView)>,
    legacy: Option<Val>,
) -> Option<Val>
    recommends
        assoc_get(stat, name) is Some,
{
    let static_cfg = assoc_get(stat, name)->Some_0;
    let section = static_cfg.settings_section;
    let dynamic_settings = match assoc_get(dynamic, name) {
        Option::Some(cfg) => cfg.settings,
        Option::None => None,
    };
    let projected = spec_section(dynamic_settings, section);
    if projected is Some {
        projected
    } else if legacy is Some {
        legacy
    } else {
        spec_section(static_cfg.settings, section)
    }
}

/// Law: when the dynamic source's projection yields a value, resolution
/// returns it verbatim, whatever the legacy override and the static settings
/// hold.
pub proof fn lemma_dynamic_priority(
    name: Seq<char>,
    dynamic: Seq<(Seq<char>, ServerConfigView)>,
    stat: Seq<(Seq<char>, ServerConfigView)>,
    legacy: Option<Val>,
)
    requires
        assoc_get(stat, name) is Some,
        ({
            let section = assoc_get(stat, name)->Some_0.settings_section;
            let dynamic_settings = match assoc_get(dynamic, name) {
                Option::Some(cfg) => cfg.settings,
                Option::None => None,
            };
            spec_section(dynamic_settings, section) is Some
        }),
    ensures
        ({
            let section = assoc_get(stat, name)->Some_0.settings_section;
            let dynamic_settings = match assoc_get(dynamic, name) {
                Option::Some(cfg) => cfg.settings,
                Option::None => None,
            };
            spec_resolve(name, dynamic, stat, legacy) == spec_section(dynamic_settings, section)
        }),
{
}

/// Looks a server's record up in a name-to-record mapping.
fn lookup_config<'a>(config: &'a Vec<(String, ServerConfig)>, name: &String) -> (r: Option<
    &'a ServerConfig,
>)
    ensures
        match r {
            Some(cfg) => assoc_get(config_views(config@), name@) == Some(cfg@),
            None => assoc_get(config_views(config@), name@) is None,
        },
{
    let ghost cvs = config_views(config@);
    let mut i: usize = 0;
    while i < config.len()
        invariant
            i <= config@.len(),
            forall|j: int| 0 <= j < i ==> config@[j].0@ != name@,
            cvs == config_views(config@),
        decreases config@.len() - i,
    {
        if config[i].0 == *name {
            proof {
                lemma_assoc_index(cvs, name@);
                let idx = assoc_index_facts(cvs, name@, i as int);
            }
            return Some(&config[i].1);
        }
        i = i + 1;
    }
    proof {
        lemma_assoc_index(cvs, name@);
        if crate::value::assoc_index(cvs, name@) >= 0 {
            assert(config@[crate::value::assoc_index(cvs, name@)].0@ != name@);
        }
    }
    None
}

/// The first index with `key` is exactly `i` when entry `i` matches and no
/// earlier entry does.
proof fn assoc_index_facts(
    cvs: Seq<(Seq<char>, ServerConfigView)>,
    key: Seq<char>,
    i: int,
) -> (idx: int)
    requires
        0 <= i < cvs.len(),
        cvs[i].0 == key,
        forall|j: int| 0 <= j < i ==> cvs[j].0 != key,
    ensures
        idx == crate::value::assoc_index(cvs, key),
        idx == i,
        assoc_get(cvs, key) == Some(cvs[i].1),
{
    lemma_assoc_index(cvs, key);
    let idx = crate::value::assoc_index(cvs, key);
    if idx < 0 {
        assert(cvs[i].0 != key);
    }
    if idx < i {
        assert(cvs[idx].0 != key);
    } else if idx > i {
        assert(cvs[i].0 != key);
    }
    idx
}

/// Resolves, per server and in order, exactly one optional settings value:
/// the dynamic source's projected settings, else the legacy flattened
/// override, else the static source's projected settings; absence when all
/// three yield nothing. Every server must have a static record.
#[verifier::loop_isolation(false)]
pub fn request_initialization_options_from_kakoune(
    servers: &Vec<String>,
    dynamic: &DynamicConfig,
    static_config: &Vec<(String, ServerConfig)>,
    legacy: &Option<SettingsValue>,
) -> (r: Vec<Option<SettingsValue>>)
    requires
        forall|i: int|
            0 <= i < servers@.len() ==> assoc_get(
                config_views(static_config@),
                #[trigger] servers@[i]@,
            ) is Some,
    ensures
        r@.len() == servers@.len(),
        forall|i: int|
            0 <= i < servers@.len() ==> opt_value_view(#[trigger] r@[i]) == spec_resolve(
                servers@[i]@,
                dynamic@,
                config_views(static_config@),
                opt_value_view(*legacy),
            ),
{
    let ghost svs = config_views(static_config@);
    let mut out: Vec<Option<SettingsValue>> = Vec::new();
    let mut i: usize = 0;
    while i < servers.len()
        invariant
            i <= servers@.len(),
            out@.len() == i,
            forall|j: int|
                0 <= j < i ==> opt_value_view(#[trigger] out@[j]) == spec_resolve(
                    servers@[j]@,
                    dynamic@,
                    svs,
                    opt_value_view(*legacy),
                ),
        decreases servers@.len() - i,
    {
        let name = &servers[i];
        let static_cfg = match lookup_config(static_config, name) {
            Some(cfg) => cfg,
            None => {
                proof {
                    assert(false);
                }
                return out;
            },
        };
        let section = static_cfg.settings_section.as_ref();
        let dynamic_settings = match lookup_config(&dynamic.language_server, name) {
            Some(cfg) => cfg.settings.as_ref(),
            None => None,
        };
        let projected = configured_section(dynamic_settings, section);
        if projected.is_some() {
            out.push(projected);
        } else {
            match legacy {
                Some(v) => {
                    out.push(Some(v.deep_copy()));
                },
                None => {
                    let from_static = configured_section(static_cfg.settings.as_ref(), section);
                    out.push(from_static);
                },
            }
        }
        i = i + 1;
    }
    out
}

} // verus!
