//! The dynamic configuration state: per-server records parsed from the
//! host-supplied configuration text, replaced wholesale on each successful
//! parse and left untouched on any failure.

use vstd::prelude::*;

use crate::insert::find_key;
use crate::parse::parse_toml_document;
use crate::parse::toml_document_of;
use crate::value::SettingsValue;
use crate::value::Val;
use crate::value::assoc_get;
use crate::value::entry_views;
use crate::value::lemma_assoc_index;
use crate::value::lemma_entry_views;

verus! {

broadcast use vstd::std_specs::vec::group_vec_axioms, vstd::seq::group_seq_axioms;

/// One server's configuration record: an optional settings tree and an
/// optional section name.
#[derive(Debug, PartialEq, Eq)]
pub struct ServerConfig {
    pub settings: Option<SettingsValue>,
    pub settings_section: Option<String>,
}

/// The mathematical shape of a [`ServerConfig`].
#[verifier::ext_equal]
pub struct ServerConfigView {
    pub settings: Option<Val>,
    pub settings_section: Option<Seq<char>>,
}

impl View for ServerConfig {
    type V = ServerConfigView;

    open spec fn view(&self) -> ServerConfigView {
        ServerConfigView {
            settings: match self.settings {
                Option::Some(v) => Some(v@),
                Option::None => None,
            },
            settings_section: match self.settings_section {
                Option::Some(s) => Some(s@),
                Option::None => None,
            },
        }
    }
}

/// The view of a name-to-record mapping, in stored order.
pub open spec fn config_views(s: Seq<(String, ServerConfig)>) -> Seq<(Seq<char>, ServerConfigView)> {
    Seq::new(s.len(), |i: int| (s[i].0@, s[i].1@))
}

/// The process-wide dynamic configuration: one record per server name.
#[derive(Debug, PartialEq, Eq)]
pub struct DynamicConfig {
    pub language_server: Vec<(String, ServerConfig)>,
}

impl View for DynamicConfig {
    type V = Seq<(Seq<char>, ServerConfigView)>;

    open spec fn view(&self) -> Seq<(Seq<char>, ServerConfigView)> {
        config_views(self.language_server@)
    }
}

impl Default for DynamicConfig {
    /// The initial dynamic configuration holds no server records.
    fn default() -> (r: DynamicConfig)
        ensures
            r@ == Seq::<(Seq<char>, ServerConfigView)>::empty(),
    {
        let r = DynamicConfig { language_server: Vec::new() };
        proof {
            assert(r@ =~= Seq::<(Seq<char>, ServerConfigView)>::empty());
        }
        r
    }
}

/// A malformed configuration text: the whole recording operation fails and
/// nothing is applied.
#[derive(Debug, PartialEq, Eq)]
pub struct FatalConfigError {
    pub message: String,
}

/// The record a `language_server` table entry stands for: its `settings`
/// subtree as it is, its `settings_section` as a string; an entry that is
/// not a table, or whose section is not a string, is a shape error.
pub open spec fn spec_server_entry(v: Val) -> Option<ServerConfigView> {
    if v is Obj {
        let fields = v->Obj_0;
        match assoc_get(fields, "settings_section"@) {
            Option::None => Some(
                ServerConfigView {
                    settings: assoc_get(fields, "settings"@),
                    settings_section: None,
                },
            ),
            Option::Some(sv) => if sv is Text {
                Some(
                    ServerConfigView {
                        settings: assoc_get(fields, "settings"@),
                        settings_section: Some(sv->Text_0),
                    },
                )
            } else {
                None
            },
        }
    } else {
        None
    }
}

/// The records of all `language_server` entries, in stored order; absence on
/// the first shape error.
pub open spec fn spec_server_entries(es: Seq<(Seq<char>, Val)>) -> Option<
    Seq<(Seq<char>, ServerConfigView)>,
>
    decreases es.len(),
{
    if es.len() == 0 {
        Some(Seq::empty())
    } else {
        match (spec_server_entry(es[0].1), spec_server_entries(es.drop_first())) {
            (Option::Some(cfg), Option::Some(rest)) => Some(seq![(es[0].0, cfg)] + rest),
            _ => None,
        }
    }
}

/// When every entry is well shaped, `spec_server_entries` succeeds and maps
/// each entry to its record.
pub proof fn lemma_spec_server_entries_some(es: Seq<(Seq<char>, Val)>)
    requires
        forall|j: int| 0 <= j < es.len() ==> spec_server_entry(#[trigger] es[j].1) is Some,
    ensures
        spec_server_entries(es) matches Some(r) && {
            &&& r.len() == es.len()
            &&& forall|j: int|
                0 <= j < es.len() ==> r[j] == (
                    es[j].0,
                    spec_server_entry(#[trigger] es[j].1)->Some_0,
                )
        },
    decreases es.len(),
{
    if es.len() != 0 {
        assert forall|j: int| 0 <= j < es.drop_first().len() implies spec_server_entry(
            #[trigger] es.drop_first()[j].1,
        ) is Some by {
            assert(es.drop_first()[j] == es[j + 1]);
        }
        lemma_spec_server_entries_some(es.drop_first());
        assert forall|j: int| 1 <= j < es.len() implies es.drop_first()[j - 1] == es[j] by {}
    }
}

/// One badly shaped entry makes `spec_server_entries` fail.
pub proof fn lemma_spec_server_entries_none(es: Seq<(Seq<char>, Val)>, j: int)
    requires
        0 <= j < es.len(),
        spec_server_entry(es[j].1) is None,
    ensures
        spec_server_entries(es) is None,
    decreases es.len(),
{
    if es.len() != 0 && j > 0 {
        assert(es.drop_first()[j - 1] == es[j]);
        lemma_spec_server_entries_none(es.drop_first(), j - 1);
    }
}

/// The dynamic configuration a parsed document stands for: the entries of
/// its `language_server` table, an empty mapping when that key is absent,
/// and a shape error when it is not a table.
pub open spec fn spec_dynamic_config(doc: Val) -> Option<Seq<(Seq<char>, ServerConfigView)>> {
    if doc is Obj {
        match assoc_get(doc->Obj_0, "language_server"@) {
            Option::None => Some(Seq::empty()),
            Option::Some(ls) => if ls is Obj {
                spec_server_entries(ls->Obj_0)
            } else {
                None
            },
        }
    } else {
        None
    }
}

/// What recording a configuration text yields: the new mapping, or absence
/// when the text does not parse or has the wrong shape.
pub open spec fn spec_record(text: Seq<char>) -> Option<Seq<(Seq<char>, ServerConfigView)>> {
    match toml_document_of(text) {
        Option::None => None,
        Option::Some(doc) => spec_dynamic_config(doc),
    }
}

/// Reads one server record out of a `language_server` entry.
fn extract_server(v: &SettingsValue) -> (r: Option<ServerConfig>)
    ensures
        match r {
            Some(cfg) => spec_server_entry(v@) == Some(cfg@),
            None => spec_server_entry(v@) is None,
        },
{
    match v {
        SettingsValue::Object(fields) => {
            proof {
                lemma_entry_views(fields@);
            }
            let settings_key: String = "settings".to_owned();
            let settings = match find_key(fields, &settings_key) {
                Some(i) => {
                    proof {
                        lemma_assoc_index(entry_views(fields@), settings_key@);
                    }
                    Some(fields[i].1.deep_copy())
                },
                None => {
                    proof {
                        lemma_assoc_index(entry_views(fields@), settings_key@);
                    }
                    None
                },
            };
            let section_key: String = "settings_section".to_owned();
            match find_key(fields, &section_key) {
                None => {
                    proof {
                        lemma_assoc_index(entry_views(fields@), section_key@);
                    }
                    Some(ServerConfig { settings, settings_section: None })
                },
                Some(i) => {
                    proof {
                        lemma_assoc_index(entry_views(fields@), section_key@);
                    }
                    match &fields[i].1 {
                        SettingsValue::Text(s) => Some(
                            ServerConfig { settings, settings_section: Some(s.clone()) },
                        ),
                        _ => None,
                    }
                },
            }
        },
        _ => None,
    }
}

/// Reads every server record out of the `language_server` table.
#[verifier::loop_isolation(false)]
fn extract_servers(servers: &Vec<(String, SettingsValue)>) -> (r: Option<
    Vec<(String, ServerConfig)>,
>)
    ensures
        match r {
            Some(out) => spec_server_entries(entry_views(servers@)) == Some(config_views(out@)),
            None => spec_server_entries(entry_views(servers@)) is None,
        },
{
    let ghost es = entry_views(servers@);
    proof {
        lemma_entry_views(servers@);
    }
    let mut out: Vec<(String, ServerConfig)> = Vec::new();
    let mut i: usize = 0;
    while i < servers.len()
        invariant
            i <= servers@.len(),
            out@.len() == i,
            forall|j: int| 0 <= j < i ==> spec_server_entry(#[trigger] es[j].1) is Some,
            forall|j: int|
                0 <= j < i ==> (out@[j].0@, out@[j].1@) == (
                    es[j].0,
                    spec_server_entry(#[trigger] es[j].1)->Some_0,
                ),
        decreases servers@.len() - i,
    {
        match extract_server(&servers[i].1) {
            None => {
                proof {
                    assert(es[i as int].1 == servers@[i as int].1@);
                    lemma_spec_server_entries_none(es, i as int);
                }
                return None;
            },
            Some(cfg) => {
                let name = servers[i].0.clone();
                out.push((name, cfg));
            },
        }
        i = i + 1;
    }
    proof {
        assert(es.len() == servers@.len());
        lemma_spec_server_entries_some(es);
        let r = spec_server_entries(es)->Some_0;
        assert forall|j: int| 0 <= j < r.len() implies config_views(out@)[j] == r[j] by {
            assert((out@[j].0@, out@[j].1@) == (
                es[j].0,
                spec_server_entry(#[trigger] es[j].1)->Some_0,
            ));
        }
        assert(config_views(out@) =~= r);
    }
    Some(out)
}

/// Reads the dynamic configuration out of a parsed configuration document.
fn extract_dynamic_config(doc: &SettingsValue) -> (r: Option<Vec<(String, ServerConfig)>>)
    ensures
        match r {
            Some(out) => spec_dynamic_config(doc@) == Some(config_views(out@)),
            None => spec_dynamic_config(doc@) is None,
        },
{
    match doc {
        SettingsValue::Object(fields) => {
            proof {
                lemma_entry_views(fields@);
            }
            let ls_key: String = "language_server".to_owned();
            match find_key(fields, &ls_key) {
                None => {
                    proof {
                        lemma_assoc_index(entry_views(fields@), ls_key@);
                        assert(config_views(Seq::<(String, ServerConfig)>::empty()) =~= Seq::<
                            (Seq<char>, ServerConfigView),
                        >::empty());
                    }
                    Some(Vec::new())
                },
                Some(i) => {
                    proof {
                        lemma_assoc_index(entry_views(fields@), ls_key@);
                    }
                    match &fields[i].1 {
                        SettingsValue::Object(servers) => extract_servers(servers),
                        _ => None,
                    }
                },
            }
        },
        _ => None,
    }
}

/// The per-server settings updates that a successful recording pushes into
/// the live server registry, bypassing the dynamic configuration: none in
/// legacy mode, and otherwise one per server named in the request's override
/// map, carrying exactly the requested settings.
pub fn registry_updates(legacy_mode: bool, requested: &Vec<(String, Option<SettingsValue>)>) -> (r:
    Vec<(String, Option<SettingsValue>)>)
    ensures
        legacy_mode ==> r@.len() == 0,
        !legacy_mode ==> {
            &&& r@.len() == requested@.len()
            &&& forall|i: int|
                0 <= i < requested@.len() ==> (#[trigger] r@[i]).0@ == requested@[i].0@
                    && match (r@[i].1, requested@[i].1) {
                        (Option::Some(a), Option::Some(b)) => a@ == b@,
                        (Option::None, Option::None) => true,
                        _ => false,
                    }
        },
{
    let mut out: Vec<(String, Option<SettingsValue>)> = Vec::new();
    if legacy_mode {
        return out;
    }
    let mut i: usize = 0;
    while i < requested.len()
        invariant
            i <= requested@.len(),
            out@.len() == i,
            forall|j: int|
                0 <= j < i ==> (#[trigger] out@[j]).0@ == requested@[j].0@ && match (
                    out@[j].1,
                    requested@[j].1,
                ) {
                    (Option::Some(a), Option::Some(b)) => a@ == b@,
                    (Option::None, Option::None) => true,
                    _ => false,
                },
        decreases requested@.len() - i,
    {
        let name = requested[i].0.clone();
        let settings = match &requested[i].1 {
            Some(v) => Some(v.deep_copy()),
            None => None,
        };
        out.push((name, settings));
        i = i + 1;
    }
    out
}

/// Parses `text` as a whole configuration document and replaces the dynamic
/// configuration wholesale on success. On any failure — text that does not
/// parse, or a `language_server` table of the wrong shape — the previous
/// configuration stays exactly as it was.
pub fn record_dynamic_config(state: &mut DynamicConfig, text: &str) -> (r: Result<
    (),
    FatalConfigError,
>)
    ensures
        match spec_record(text@) {
            Some(cfg) => r is Ok && final(state)@ == cfg,
            None => r is Err && *final(state) == *old(state),
        },
{
    match parse_toml_document(text) {
        Err(message) => Err(FatalConfigError { message }),
        Ok(doc) => match extract_dynamic_config(&doc) {
            Some(cfg) => {
                state.language_server = cfg;
                Ok(())
            },
            None => Err(
                FatalConfigError {
                    message: "configuration has an invalid language_server shape".to_owned(),
                },
            ),
        },
    }
}

} // verus!
