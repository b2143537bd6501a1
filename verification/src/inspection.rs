//! Stable, offline machine-readable inspection and validation interfaces.

use vstd::prelude::*;
use vstd::string::*;

use crate::backend::null::copy_nets;
use crate::builtin;
use crate::builtin::builtin_names;
use crate::config::{
    custom_path, resolved, same_settings, BackendKind, Config, CustomFile, Escalate, FilterConfig,
    Policy,
};
use crate::engine::{load_filter, load_fault, DefSource};
use crate::filter::{DefView, FilterDef, JournalSelector};
use crate::ip::IpNet;
use crate::paths;
use crate::sorted::{ascending, key_texts, SortedMap};
use crate::text;
use crate::text::{opt_text, texts};

verus! {

pub const SCHEMA_VERSION: u32 = 1;

#[derive(Debug, Clone)]
pub struct Inspection {
    pub schema_version: u32,
    pub ok: bool,
    pub version: String,
    pub paths: InspectionPaths,
    pub files: InspectionFiles,
    pub effective: EffectiveConfig,
    pub filters: Vec<FilterInspection>,
}

#[derive(Debug, Clone)]
pub struct InspectionPaths {
    pub config_dir: String,
    pub main_config: String,
    pub conf_dir: String,
    pub filters_dir: String,
    pub control_socket: String,
    pub state_dir: String,
    pub events_file: String,
}

#[derive(Debug, Clone)]
pub struct InspectionFiles {
    pub main: Option<String>,
    pub dropins: Vec<String>,
    pub custom_filters: Vec<String>,
}

#[derive(Debug, Clone)]
pub struct EffectiveConfig {
    pub defaults: EffectiveDefaults,
    pub paths: EffectivePaths,
}

#[derive(Debug, Clone)]
pub struct EffectiveDefaults {
    pub bantime_seconds: u64,
    pub findtime_seconds: u64,
    pub maxretry: u32,
    pub escalate_enabled: bool,
    pub escalate: EffectiveEscalate,
    pub allow: Vec<IpNet>,
    pub backend: BackendKind,
    pub exec_command: Option<String>,
    pub ipv6_prefix: u8,
    pub max_tracked: usize,
    pub journal: bool,
}

#[derive(Debug, Clone, Copy, PartialEq, Eq, Structural)]
pub struct EffectiveEscalate {
    pub factor: u32,
    pub max_seconds: u64,
    pub memory_seconds: u64,
}

impl From<&Escalate> for EffectiveEscalate {
    fn from(value: &Escalate) -> (r: Self) {
        EffectiveEscalate {
            factor: value.factor,
            max_seconds: value.max.secs(),
            memory_seconds: value.memory.secs(),
        }
    }
}

impl vstd::std_specs::convert::FromSpecImpl<&Escalate> for EffectiveEscalate {
    open spec fn obeys_from_spec() -> bool {
        true
    }

    open spec fn from_spec(value: &Escalate) -> EffectiveEscalate {
        EffectiveEscalate {
            factor: value.factor,
            max_seconds: value.max.0@,
            memory_seconds: value.memory.0@,
        }
    }
}

#[derive(Debug, Clone)]
pub struct EffectivePaths {
    pub socket: String,
    pub state_dir: String,
}

#[derive(Debug, Clone)]
pub struct FilterInspection {
    pub name: String,
    pub builtin: bool,
    pub enabled: bool,
    pub source: String,
    pub definition: FilterDef,
    pub configured_override: Option<FilterConfig>,
    pub effective_policy: EffectivePolicy,
}

#[derive(Debug, Clone)]
pub struct EffectivePolicy {
    pub bantime_seconds: u64,
    pub findtime_seconds: u64,
    pub maxretry: u32,
    pub escalation: bool,
    pub files: Vec<String>,
    pub journal: JournalSelector,
    pub ports: Vec<u16>,
}

#[derive(Debug, Clone)]
pub struct CheckResult {
    pub schema_version: u32,
    pub ok: bool,
    pub checked_filters: Vec<String>,
    pub errors: Vec<CheckError>,
}

#[derive(Debug, Clone)]
pub struct CheckError {
    pub filter: Option<String>,
    pub error: String,
}

/// What stands behind the last `/` of a path.
pub open spec fn file_name(path: Seq<char>) -> Seq<char>
    decreases path.len(),
{
    if path.len() == 0 || path.last() == '/' {
        Seq::empty()
    } else {
        file_name(path.drop_last()).push(path.last())
    }
}

/// A file name up to its last dot; all of it where the only dot is in front.
pub open spec fn stem_of(name: Seq<char>, i: int) -> Seq<char>
    decreases i,
{
    if i <= 0 || i >= name.len() {
        name
    } else if name[i] == '.' {
        name.take(i)
    } else {
        stem_of(name, i - 1)
    }
}

/// The name of the filter that a definition file defines.
pub open spec fn filter_of_path(path: Seq<char>) -> Seq<char> {
    stem_of(file_name(path), file_name(path).len() - 1)
}

/// `filter_of_path`.
pub fn path_filter(path: &str) -> (r: String)
    ensures
        r@ == filter_of_path(path@),
{
    let v = text::chars(path);
    let mut i: usize = v.len();
    assert(v@.take(i as int) =~= v@);
    assert(v@.skip(i as int) =~= Seq::empty());
    assert(file_name(v@) + Seq::empty() =~= file_name(v@));
    while i > 0 && v[i - 1] != '/'
        invariant
            i <= v@.len(),
            file_name(v@) == file_name(v@.take(i as int)) + v@.skip(i as int),
        decreases i,
    {
        assert(v@.take(i as int).drop_last() =~= v@.take(i - 1));
        assert(file_name(v@) =~= file_name(v@.take(i - 1)) + v@.skip(i - 1));
        i = i - 1;
    }
    let name = text::copied(&v, i, v.len());
    assert(name@ =~= file_name(path@));
    let mut k: usize = name.len();
    while k > 1
        invariant
            k <= name@.len(),
            name@ == file_name(path@),
            stem_of(name@, name@.len() - 1) == stem_of(name@, k - 1),
        decreases k,
    {
        if name[k - 1] == '.' {
            let stem = text::copied(&name, 0, k - 1);
            assert(stem@ =~= name@.take(k - 1));
            return text::text(&stem);
        }
        k = k - 1;
    }
    text::text(&name)
}

/// All filters that there are: the built-in ones, those in the configuration, and those
/// with a definition file.
pub open spec fn known_filters(cfg: Config, custom: Seq<Seq<char>>) -> Set<Seq<char>> {
    Set::new(
        |n: Seq<char>|
            builtin_names().contains(n) || cfg.filters@.contains_key(n) || exists|i: int|
                0 <= i < custom.len() && #[trigger] filter_of_path(custom[i]) == n,
    )
}

/// Puts names into a set.
fn add_names(m: &mut SortedMap<String, ()>, v: &Vec<String>)
    requires
        old(m).wf(),
    ensures
        final(m).wf(),
        forall|n: Seq<char>| #[trigger]
            final(m)@.contains_key(n) <==> old(m)@.contains_key(n) || texts(v@).contains(n),
{
    let ghost start = m@;
    let ghost all = texts(v@);
    let mut i: usize = 0;
    while i < v.len()
        invariant
            i <= v@.len(),
            all == texts(v@),
            m.wf(),
            forall|n: Seq<char>| #[trigger]
                m@.contains_key(n) <==> start.contains_key(n) || exists|j: int|
                    0 <= j < i && #[trigger] all[j] == n,
        decreases v@.len() - i,
    {
        m.insert(v[i].clone(), ());
        assert(all[i as int] == v@[i as int]@);
        i += 1;
    }
    assert forall|n: Seq<char>| #[trigger] m@.contains_key(n) <==> start.contains_key(n)
        || all.contains(n) by {
        if all.contains(n) {
            let j = choose|j: int| 0 <= j < all.len() && all[j] == n;
            assert(all[j] == n);
        }
    }
}

/// The names of all filters that there are, in order.
pub fn all_filter_names(cfg: &Config, files: &InspectionFiles) -> (r: Vec<String>)
    requires
        cfg.wf(),
    ensures
        ascending::<String>(texts(r@)),
        texts(r@).to_set() == known_filters(*cfg, texts(files.custom_filters@)),
{
    let mut m: SortedMap<String, ()> = SortedMap::new();
    let shipped = builtin::names();
    add_names(&mut m, &shipped);
    let configured = key_texts(&cfg.filters);
    let ghost keys = cfg.filters.keys();
    add_names(&mut m, &configured);
    let ghost paths = texts(files.custom_filters@);
    let mut stems: Vec<String> = Vec::new();
    let mut j: usize = 0;
    while j < files.custom_filters.len()
        invariant
            j <= files.custom_filters@.len(),
            paths == texts(files.custom_filters@),
            stems@.len() == j,
            forall|k: int| 0 <= k < j ==> #[trigger] texts(stems@)[k] == filter_of_path(paths[k]),
        decreases files.custom_filters@.len() - j,
    {
        let ghost before = stems@;
        let s = path_filter(files.custom_filters[j].as_str());
        stems.push(s);
        assert(texts(stems@) =~= texts(before).push(s@));
        assert(paths[j as int] == files.custom_filters@[j as int]@);
        j += 1;
    }
    add_names(&mut m, &stems);
    let ghost all = m.keys();
    let out = key_texts(&m);
    proof {
        m.lemma_view();
        cfg.filters.lemma_view();
        let want = known_filters(*cfg, paths);
        assert forall|n: Seq<char>| all.to_set().contains(n) <==> want.contains(n) by {
            assert(m@.contains_key(n) <==> all.contains(n));
            assert(cfg.filters@.contains_key(n) <==> keys.contains(n));
            if texts(stems@).contains(n) {
                let x = choose|x: int| 0 <= x < texts(stems@).len() && texts(stems@)[x] == n;
                assert(filter_of_path(paths[x]) == n);
            }
            if exists|x: int| 0 <= x < paths.len() && #[trigger] filter_of_path(paths[x]) == n {
                let x = choose|x: int| 0 <= x < paths.len() && #[trigger] filter_of_path(paths[x])
                    == n;
                assert(texts(stems@)[x] == n);
            }
        }
        assert(all.to_set() =~= want);
    }
    out
}

/// Whether a path names a file with the extension `toml`.
pub open spec fn is_toml(path: Seq<char>) -> bool {
    let n = path.len() - ".toml"@.len();
    n > 0 && path[n - 1] != '/' && path.skip(n) == ".toml"@
}

/// `is_toml`.
fn ends_in_toml(path: &str) -> (r: bool)
    ensures
        r == is_toml(path@),
{
    let v = text::chars(path);
    let tail = text::chars(".toml");
    if v.len() <= tail.len() {
        return false;
    }
    let n: usize = v.len() - tail.len();
    let end = text::copied(&v, n, v.len());
    assert(end@ =~= path@.skip(n as int));
    v[n - 1] != '/' && text::same_chars(&end, &tail)
}

/// The definition or configuration files among the files of a directory: those with the
/// extension `toml`, in order.
pub fn toml_files(found: &Vec<String>) -> (r: Vec<String>)
    ensures
        ascending::<String>(texts(r@)),
        forall|p: Seq<char>| #[trigger]
            texts(r@).contains(p) <==> texts(found@).contains(p) && is_toml(p),
{
    let mut m: SortedMap<String, ()> = SortedMap::new();
    let ghost all = texts(found@);
    let mut i: usize = 0;
    while i < found.len()
        invariant
            i <= found@.len(),
            all == texts(found@),
            m.wf(),
            forall|p: Seq<char>| #[trigger]
                m@.contains_key(p) <==> is_toml(p) && exists|j: int|
                    0 <= j < i && #[trigger] all[j] == p,
        decreases found@.len() - i,
    {
        assert(all[i as int] == found@[i as int]@);
        if ends_in_toml(found[i].as_str()) {
            m.insert(found[i].clone(), ());
        }
        i += 1;
    }
    proof {
        m.lemma_view();
        assert forall|p: Seq<char>| #[trigger] m.keys().contains(p) <==> all.contains(p)
            && is_toml(p) by {
            assert(m@.contains_key(p) <==> m.keys().contains(p));
            if all.contains(p) {
                let j = choose|j: int| 0 <= j < all.len() && all[j] == p;
                assert(all[j] == p);
            }
        }
    }
    key_texts(&m)
}

/// The filters that a check covers: all that there are, or those that are enabled.
pub fn names_to_check(cfg: &Config, files: &InspectionFiles, all: bool) -> (r: Vec<String>)
    requires
        cfg.wf(),
    ensures
        all ==> ascending::<String>(texts(r@)) && texts(r@).to_set() == known_filters(
            *cfg,
            texts(files.custom_filters@),
        ),
        !all ==> texts(r@) == cfg.enabled_names(),
{
    if all {
        all_filter_names(cfg, files)
    } else {
        cfg.enabled_filters()
    }
}

/// Whether a filter has a definition file of its own: there is one, and it is no
/// directory or the like.
pub open spec fn has_file(src: DefSource) -> bool {
    src.is_file && !(src.custom is Missing)
}

/// The built-in definition, where there is one.
pub open spec fn shipped_def(name: Seq<char>, builtin: Option<Result<FilterDef, String>>) -> Result<
    DefView,
    Seq<char>,
> {
    match builtin {
        Some(Ok(def)) => Ok(def@),
        Some(Err(e)) => Err(e@),
        None => Err("unknown filter `"@ + name + "`"@),
    }
}

/// A definition as it is written, without the operator's overrides: that of its own
/// file, or the built-in one where it has none.
pub open spec fn raw_def(name: Seq<char>, path: Seq<char>, src: DefSource) -> Result<
    DefView,
    Seq<char>,
> {
    if has_file(src) {
        match src.custom {
            CustomFile::Parsed { def } => Ok(def@),
            CustomFile::Malformed { error } => Err(path + ": "@ + error@),
            CustomFile::Unreadable { error } => Err(error@),
            CustomFile::Missing => shipped_def(name, src.builtin),
        }
    } else {
        shipped_def(name, src.builtin)
    }
}

/// `shipped_def`.
fn shipped(name: &str, builtin: &Option<Result<FilterDef, String>>) -> (r: Result<
    FilterDef,
    String,
>)
    ensures
        match r {
            Ok(d) => shipped_def(name@, *builtin) == Ok::<DefView, Seq<char>>(d@),
            Err(e) => shipped_def(name@, *builtin) == Err::<DefView, Seq<char>>(e@),
        },
{
    match builtin {
        Some(Ok(def)) => Ok(def.copy()),
        Some(Err(e)) => Err(e.clone()),
        None => {
            let mut out = "unknown filter `".to_owned();
            out.append(name);
            out.append("`");
            Err(out)
        },
    }
}

/// A definition as it is written.
pub fn raw_filter_def(name: &str, path: &str, src: &DefSource) -> (r: Result<FilterDef, String>)
    ensures
        match r {
            Ok(d) => raw_def(name@, path@, *src) == Ok::<DefView, Seq<char>>(d@),
            Err(e) => raw_def(name@, path@, *src) == Err::<DefView, Seq<char>>(e@),
        },
{
    if !src.is_file {
        return shipped(name, &src.builtin);
    }
    match &src.custom {
        CustomFile::Parsed { def } => Ok(def.copy()),
        CustomFile::Malformed { error } => {
            let mut out = path.to_owned();
            out.append(": ");
            out.append(error.as_str());
            Err(out)
        },
        CustomFile::Unreadable { error } => Err(error.clone()),
        CustomFile::Missing => shipped(name, &src.builtin),
    }
}

/// What an inspection says of a policy and the definition that it belongs to.
pub open spec fn is_effective(p: Policy, def: DefView, r: EffectivePolicy) -> bool {
    &&& r.bantime_seconds == p.bantime@
    &&& r.findtime_seconds == p.findtime@
    &&& r.maxretry == p.maxretry
    &&& r.escalation == p.escalate is Some
    &&& texts(r.files@) == def.files
    &&& texts(r.journal.units@) == def.units
    &&& texts(r.journal.identifiers@) == def.identifiers
    &&& texts(r.journal.comm@) == def.comm
    &&& r.ports@ == p.ports@
}

/// What an inspection says of a filter: its definition as it is written (`raw`), and
/// the policy of the effective definition (`def`).
pub open spec fn is_inspected(
    cfg: Config,
    name: Seq<char>,
    custom: bool,
    builtin: bool,
    raw: DefView,
    def: DefView,
    r: FilterInspection,
) -> bool {
    &&& r.name@ == name
    &&& r.builtin == builtin
    &&& r.enabled == (cfg.override_of(name) matches Some(f) && f.enabled)
    &&& r.source@ == (if custom {
        custom_path(cfg.config_dir@, name)
    } else {
        "built-in"@
    })
    &&& r.definition@ == raw
    &&& match (cfg.override_of(name), r.configured_override) {
        (Some(a), Some(b)) => same_settings(a, b),
        (None, None) => true,
        _ => false,
    }
    &&& exists|p: Policy| #[trigger]
        cfg.is_policy(name, def.ports, p) && is_effective(p, def, r.effective_policy)
}

/// What can go wrong with the inspection of a filter.
pub open spec fn inspect_fault(cfg: Config, name: Seq<char>, src: DefSource) -> Option<Seq<char>> {
    match raw_def(name, custom_path(cfg.config_dir@, name), src) {
        Err(e) => Some(e),
        Ok(_) => match resolved(cfg, name, src.custom, src.builtin) {
            Err(e) => Some(e),
            Ok(_) => None,
        },
    }
}

/// Inspects a filter.
pub fn inspect_filter(cfg: &Config, name: &str, src: DefSource) -> (r: Result<
    FilterInspection,
    String,
>)
    requires
        cfg.wf(),
    ensures
        match r {
            Ok(f) => {
                let path = custom_path(cfg.config_dir@, name@);
                &&& inspect_fault(*cfg, name@, src) is None
                &&& is_inspected(
                    *cfg,
                    name@,
                    has_file(src),
                    src.builtin is Some,
                    raw_def(name@, path, src)->Ok_0,
                    resolved(*cfg, name@, src.custom, src.builtin)->Ok_0,
                    f,
                )
            },
            Err(e) => inspect_fault(*cfg, name@, src) == Some(e@),
        },
{
    let path = cfg.custom_file(name);
    let custom: bool = src.is_file && match &src.custom {
        CustomFile::Missing => false,
        _ => true,
    };
    let builtin: bool = src.builtin.is_some();
    let definition = match raw_filter_def(name, path.as_str(), &src) {
        Ok(d) => d,
        Err(e) => {
            return Err(e);
        },
    };
    let def = match cfg.filter_def(name, src.custom, src.builtin) {
        Ok(d) => d,
        Err(e) => {
            return Err(e);
        },
    };
    let policy = cfg.policy_for(name, &def);
    let over = cfg.filters.get(&name.to_owned());
    let enabled: bool = match over {
        Some(f) => f.enabled,
        None => false,
    };
    let configured_override = match over {
        Some(f) => Some(f.copy()),
        None => None,
    };
    let source = if custom {
        path
    } else {
        "built-in".to_owned()
    };
    let ghost pv = policy;
    let ghost dv = def@;
    let effective_policy = EffectivePolicy {
        bantime_seconds: policy.bantime.as_secs(),
        findtime_seconds: policy.findtime.as_secs(),
        maxretry: policy.maxretry,
        escalation: policy.escalate.is_some(),
        files: def.files,
        journal: def.journal,
        ports: policy.ports,
    };
    assert(is_effective(pv, dv, effective_policy));
    assert(cfg.is_policy(name@, dv.ports, pv));
    Ok(
        FilterInspection {
            name: name.to_owned(),
            builtin,
            enabled,
            source,
            definition,
            configured_override,
            effective_policy,
        },
    )
}

/// A copy of a text that may be absent.
fn copy_opt(o: &Option<String>) -> (r: Option<String>)
    ensures
        opt_text(r) == opt_text(*o),
{
    match o {
        Some(s) => Some(s.clone()),
        None => None,
    }
}

/// What an inspection says of the paths.
pub open spec fn is_paths(cfg: Config, dir: Seq<char>, p: InspectionPaths) -> bool {
    &&& p.config_dir@ == dir
    &&& p.main_config@ == paths::joined(dir, "minsec.toml"@)
    &&& p.conf_dir@ == paths::joined(dir, "conf.d"@)
    &&& p.filters_dir@ == paths::joined(dir, "filters"@)
    &&& p.control_socket@ == cfg.paths.socket@
    &&& p.state_dir@ == cfg.paths.state_dir@
    &&& p.events_file@ == paths::joined(cfg.paths.state_dir@, "events.jsonl"@)
}

/// What an inspection says of the settings.
pub open spec fn is_settings(cfg: Config, e: EffectiveConfig) -> bool {
    let d = cfg.defaults;
    &&& e.defaults.bantime_seconds == d.bantime.0@
    &&& e.defaults.findtime_seconds == d.findtime.0@
    &&& e.defaults.maxretry == d.maxretry
    &&& e.defaults.escalate_enabled == d.escalate_enabled
    &&& e.defaults.escalate.factor == d.escalate.factor
    &&& e.defaults.escalate.max_seconds == d.escalate.max.0@
    &&& e.defaults.escalate.memory_seconds == d.escalate.memory.0@
    &&& e.defaults.allow@ == d.allow@
    &&& e.defaults.backend == d.backend
    &&& opt_text(e.defaults.exec_command) == opt_text(d.exec_command)
    &&& e.defaults.ipv6_prefix == d.ipv6_prefix
    &&& e.defaults.max_tracked == d.max_tracked
    &&& e.defaults.journal == d.journal
    &&& e.paths.socket@ == cfg.paths.socket@
    &&& e.paths.state_dir@ == cfg.paths.state_dir@
}

/// Whether `f` is what an inspection says of the filter `name`.
pub open spec fn is_filter_report(
    cfg: Config,
    name: Seq<char>,
    src: DefSource,
    f: FilterInspection,
) -> bool {
    is_inspected(
        cfg,
        name,
        has_file(src),
        src.builtin is Some,
        raw_def(name, custom_path(cfg.config_dir@, name), src)->Ok_0,
        resolved(cfg, name, src.custom, src.builtin)->Ok_0,
        f,
    )
}

/// Inspects a configuration that was read from its directory. `names` are the filters
/// ([`all_filter_names`]), and `sources` where the definition of each comes from.
pub fn inspect(
    cfg: &Config,
    files: InspectionFiles,
    version: &str,
    names: &Vec<String>,
    sources: Vec<DefSource>,
) -> (r: Result<Inspection, String>)
    requires
        cfg.wf(),
        sources@.len() == names@.len(),
    ensures
        match r {
            Ok(i) => {
                &&& i.schema_version == SCHEMA_VERSION
                &&& i.ok
                &&& i.version@ == version@
                &&& is_paths(*cfg, cfg.config_dir@, i.paths)
                &&& i.files == files
                &&& is_settings(*cfg, i.effective)
                &&& i.filters@.len() == names@.len()
                &&& forall|k: int|
                    0 <= k < names@.len() ==> is_filter_report(
                        *cfg,
                        names@[k]@,
                        sources@[k],
                        #[trigger] i.filters@[k],
                    )
                &&& forall|k: int|
                    0 <= k < names@.len() ==> #[trigger] inspect_fault(
                        *cfg,
                        names@[k]@,
                        sources@[k],
                    ) is None
            },
            Err(e) => exists|k: int|
                0 <= k < names@.len() && #[trigger] inspect_fault(*cfg, names@[k]@, sources@[k])
                    == Some(e@) && forall|j: int|
                    0 <= j < k ==> #[trigger] inspect_fault(*cfg, names@[j]@, sources@[j]) is None,
        },
{
    let ghost all = sources@;
    let mut rest = sources;
    let mut filters: Vec<FilterInspection> = Vec::new();
    let mut i: usize = 0;
    assert(rest@ =~= all.skip(0));
    while i < names.len()
        invariant
            i <= names@.len(),
            cfg.wf(),
            all == sources@,
            all.len() == names@.len(),
            rest@ == all.skip(i as int),
            filters@.len() == i,
            forall|k: int|
                0 <= k < i ==> is_filter_report(*cfg, names@[k]@, all[k], #[trigger] filters@[k]),
            forall|k: int|
                0 <= k < i ==> #[trigger] inspect_fault(*cfg, names@[k]@, all[k]) is None,
        decreases names@.len() - i,
    {
        assert(rest@[0] == all[i as int]);
        assert(rest@.remove(0) =~= all.skip(i + 1));
        let src = rest.remove(0);
        match inspect_filter(cfg, names[i].as_str(), src) {
            Ok(f) => {
                filters.push(f);
                assert(inspect_fault(*cfg, names@[i as int]@, all[i as int]) is None);
                assert(is_filter_report(*cfg, names@[i as int]@, all[i as int], f));
            },
            Err(e) => {
                assert(inspect_fault(*cfg, names@[i as int]@, all[i as int]) == Some(e@));
                return Err(e);
            },
        }
        i += 1;
    }
    let dir = cfg.config_dir.as_str();
    let state = cfg.paths.state_dir.as_str();
    let d = &cfg.defaults;
    Ok(
        Inspection {
            schema_version: SCHEMA_VERSION,
            ok: true,
            version: version.to_owned(),
            paths: InspectionPaths {
                config_dir: dir.to_owned(),
                main_config: paths::join(dir, "minsec.toml"),
                conf_dir: paths::join(dir, "conf.d"),
                filters_dir: paths::join(dir, "filters"),
                control_socket: cfg.paths.socket.clone(),
                state_dir: cfg.paths.state_dir.clone(),
                events_file: paths::join(state, "events.jsonl"),
            },
            files,
            effective: EffectiveConfig {
                defaults: EffectiveDefaults {
                    bantime_seconds: d.bantime.secs(),
                    findtime_seconds: d.findtime.secs(),
                    maxretry: d.maxretry,
                    escalate_enabled: d.escalate_enabled,
                    escalate: EffectiveEscalate::from(&d.escalate),
                    allow: copy_nets(&d.allow),
                    backend: d.backend,
                    exec_command: copy_opt(&d.exec_command),
                    ipv6_prefix: d.ipv6_prefix,
                    max_tracked: d.max_tracked,
                    journal: d.journal,
                },
                paths: EffectivePaths {
                    socket: cfg.paths.socket.clone(),
                    state_dir: cfg.paths.state_dir.clone(),
                },
            },
            filters,
        },
    )
}

/// A [`CheckError`] as values.
pub struct CheckErrorView {
    pub filter: Option<Seq<char>>,
    pub error: Seq<char>,
}

impl View for CheckError {
    type V = CheckErrorView;

    open spec fn view(&self) -> CheckErrorView {
        CheckErrorView { filter: opt_text(self.filter), error: self.error@ }
    }
}

/// Errors as values.
pub open spec fn errors_of(v: Seq<CheckError>) -> Seq<CheckErrorView> {
    v.map_values(|e: CheckError| e@)
}

/// What is wrong with the first `n` filters, in order.
pub open spec fn check_errors(
    cfg: Config,
    names: Seq<Seq<char>>,
    sources: Seq<DefSource>,
    n: int,
) -> Seq<CheckErrorView>
    decreases n,
{
    if n <= 0 {
        Seq::empty()
    } else {
        match load_fault(cfg, names[n - 1], sources[n - 1]) {
            Some(error) => check_errors(cfg, names, sources, n - 1).push(
                CheckErrorView { filter: Some(names[n - 1]), error },
            ),
            None => check_errors(cfg, names, sources, n - 1),
        }
    }
}

/// Checks the filters `names`, whose definitions come from `sources`.
pub fn check(cfg: &Config, names: Vec<String>, sources: Vec<DefSource>) -> (r: CheckResult)
    requires
        cfg.wf(),
        sources@.len() == names@.len(),
    ensures
        r.schema_version == SCHEMA_VERSION,
        r.checked_filters == names,
        errors_of(r.errors@) == check_errors(
            *cfg,
            texts(names@),
            sources@,
            names@.len() as int,
        ),
        r.ok == (r.errors@.len() == 0),
{
    let ghost all = sources@;
    let ghost nv = texts(names@);
    let mut rest = sources;
    let mut errors: Vec<CheckError> = Vec::new();
    let mut i: usize = 0;
    assert(rest@ =~= all.skip(0));
    assert(errors_of(errors@) =~= Seq::empty());
    while i < names.len()
        invariant
            i <= names@.len(),
            cfg.wf(),
            all == sources@,
            nv == texts(names@),
            all.len() == names@.len(),
            rest@ == all.skip(i as int),
            errors_of(errors@) == check_errors(*cfg, nv, all, i as int),
        decreases names@.len() - i,
    {
        assert(rest@[0] == all[i as int]);
        assert(rest@.remove(0) =~= all.skip(i + 1));
        let src = rest.remove(0);
        assert(nv[i as int] == names@[i as int]@);
        let ghost before = errors@;
        let loaded = match cfg.filter_def(names[i].as_str(), src.custom, src.builtin) {
            Ok(def) => match load_filter(def) {
                Ok(_) => None,
                Err(e) => Some(e),
            },
            Err(e) => Some(e),
        };
        assert(opt_text(loaded) == load_fault(*cfg, nv[i as int], all[i as int]));
        if let Some(error) = loaded {
            let err = CheckError { filter: Some(names[i].clone()), error };
            errors.push(err);
            assert(errors_of(errors@) =~= errors_of(before).push(err@));
        }
        i += 1;
    }
    let ok: bool = errors.len() == 0;
    CheckResult { schema_version: SCHEMA_VERSION, ok, checked_filters: names, errors }
}

/// The result of a check whose configuration cannot be read.
pub fn check_failed(error: String) -> (r: CheckResult)
    ensures
        r.schema_version == SCHEMA_VERSION,
        !r.ok,
        r.checked_filters@.len() == 0,
        errors_of(r.errors@) == seq![CheckErrorView { filter: None, error: error@ }],
{
    let mut errors: Vec<CheckError> = Vec::new();
    errors.push(CheckError { filter: None, error });
    assert(errors_of(errors@) =~= seq![CheckErrorView { filter: None, error: error@ }]);
    CheckResult {
        schema_version: SCHEMA_VERSION,
        ok: false,
        checked_filters: Vec::new(),
        errors,
    }
}

/// The file name of a path is what stands behind its last slash.
proof fn lemma_file_name(dir: Seq<char>, name: Seq<char>)
    requires
        !name.contains('/'),
    ensures
        file_name(dir + seq!['/'] + name) == name,
    decreases name.len(),
{
    let path = dir + seq!['/'] + name;
    if name.len() == 0 {
        assert(path.last() == '/');
        assert(name =~= Seq::empty());
    } else {
        let less = name.drop_last();
        assert(path.last() == name.last());
        assert(name.contains(name[name.len() - 1]));
        assert(path.drop_last() =~= dir + seq!['/'] + less);
        assert forall|c: char| less.contains(c) implies name.contains(c) by {
            let i = choose|i: int| 0 <= i < less.len() && less[i] == c;
            assert(name[i] == c);
        }
        lemma_file_name(dir, less);
        assert(less.push(name.last()) =~= name);
    }
}

/// The stem of a file name ends before its last dot.
proof fn lemma_stem(name: Seq<char>, ext: Seq<char>, i: int)
    requires
        name.len() > 0,
        !ext.contains('.'),
        name.len() <= i < name.len() + 1 + ext.len(),
    ensures
        stem_of(name + seq!['.'] + ext, i) == name,
    decreases i,
{
    let all = name + seq!['.'] + ext;
    if i == name.len() {
        assert(all[i] == '.');
        assert(all.take(i) =~= name);
    } else {
        assert(all[i] == ext[i - name.len() - 1]);
        assert(ext.contains(ext[i - name.len() - 1]));
        lemma_stem(name, ext, i - 1);
    }
}

/// A definition file is named after its filter: the filter's name is the file's, less
/// the extension behind its last dot.
pub proof fn law_file_names_filter(dir: Seq<char>, name: Seq<char>, ext: Seq<char>)
    requires
        name.len() > 0,
        !name.contains('/'),
        !ext.contains('/'),
        !ext.contains('.'),
    ensures
        filter_of_path(dir + seq!['/'] + name + seq!['.'] + ext) == name,
        !name.contains('.') ==> filter_of_path(dir + seq!['/'] + name) == name,
{
    let file = name + seq!['.'] + ext;
    assert forall|c: char| file.contains(c) implies c == '.' || name.contains(c) || ext.contains(
        c,
    ) by {
        let i = choose|i: int| 0 <= i < file.len() && file[i] == c;
        if i < name.len() {
            assert(name[i] == c);
        } else if i > name.len() {
            assert(ext[i - name.len() - 1] == c);
        }
    }
    assert(dir + seq!['/'] + name + seq!['.'] + ext =~= dir + seq!['/'] + file);
    lemma_file_name(dir, file);
    lemma_stem(name, ext, file.len() - 1);
    if !name.contains('.') {
        lemma_file_name(dir, name);
        lemma_no_stem(name, name.len() - 1);
    }
}

proof fn lemma_no_stem(name: Seq<char>, i: int)
    requires
        !name.contains('.'),
    ensures
        stem_of(name, i) == name,
    decreases i,
{
    if 0 < i < name.len() {
        assert(name.contains(name[i]));
        lemma_no_stem(name, i - 1);
    }
}

/// A file counts exactly if there is a name before `.toml` at its end.
pub proof fn law_toml_files(path: Seq<char>)
    ensures
        is_toml(path) == exists|stem: Seq<char>|
            stem.len() > 0 && stem.last() != '/' && path == #[trigger] (stem + ".toml"@),
{
    let n = path.len() - ".toml"@.len();
    if is_toml(path) {
        let stem = path.take(n);
        assert(path =~= stem + ".toml"@);
        assert(stem.last() == path[n - 1]);
    }
    if exists|stem: Seq<char>|
        stem.len() > 0 && stem.last() != '/' && path == #[trigger] (stem + ".toml"@) {
        let stem = choose|stem: Seq<char>|
            stem.len() > 0 && stem.last() != '/' && path == #[trigger] (stem + ".toml"@);
        assert(path.skip(n) =~= ".toml"@);
        assert(path[n - 1] == stem.last());
    }
}

/// The filters that there are: the ten that come with the program, those that the
/// operator configures, and those with a definition file.
pub proof fn law_known_filters(cfg: Config, custom: Seq<Seq<char>>, n: Seq<char>)
    ensures
        known_filters(cfg, custom).contains(n) == (builtin_names().contains(n)
            || cfg.filters@.contains_key(n) || exists|i: int|
            0 <= i < custom.len() && #[trigger] filter_of_path(custom[i]) == n),
{
}

/// A definition as it is written comes from the filter's own file, where there is one
/// that is a regular file, and from the built-in ones otherwise.
pub proof fn law_raw_definitions(name: Seq<char>, path: Seq<char>, src: DefSource)
    ensures
        ({
            let r = raw_def(name, path, src);
            let own = src.is_file && !(src.custom is Missing);
            &&& has_file(src) == own
            &&& own && (src.custom matches CustomFile::Parsed { def } && true) ==> r == Ok::<
                DefView,
                Seq<char>,
            >(src.custom->Parsed_def@)
            &&& own && src.custom is Malformed ==> r == Err::<DefView, Seq<char>>(
                path + ": "@ + src.custom->Malformed_error@,
            )
            &&& own && src.custom is Unreadable ==> r == Err::<DefView, Seq<char>>(
                src.custom->Unreadable_error@,
            )
            &&& !own ==> match src.builtin {
                Some(Ok(def)) => r == Ok::<DefView, Seq<char>>(def@),
                Some(Err(e)) => r == Err::<DefView, Seq<char>>(e@),
                None => r == Err::<DefView, Seq<char>>("unknown filter `"@ + name + "`"@),
            }
        }),
{
}

/// What an inspection tells of a filter, field by field.
pub proof fn law_filter_report_tells(
    cfg: Config,
    name: Seq<char>,
    src: DefSource,
    f: FilterInspection,
)
    requires
        is_filter_report(cfg, name, src, f),
    ensures
        ({
            let path = custom_path(cfg.config_dir@, name);
            let def = resolved(cfg, name, src.custom, src.builtin)->Ok_0;
            let e = f.effective_policy;
            &&& f.name@ == name
            &&& f.builtin == (src.builtin is Some)
            &&& f.enabled == (cfg.filters@.contains_key(name) && cfg.filters@[name].enabled)
            &&& f.source@ == (if src.is_file && !(src.custom is Missing) {
                path
            } else {
                "built-in"@
            })
            &&& f.definition@ == raw_def(name, path, src)->Ok_0
            &&& (f.configured_override is Some) == cfg.filters@.contains_key(name)
            &&& f.configured_override matches Some(o) ==> same_settings(cfg.filters@[name], o)
            &&& texts(e.files@) == def.files && texts(e.journal.units@) == def.units && texts(
                e.journal.identifiers@,
            ) == def.identifiers && texts(e.journal.comm@) == def.comm
            &&& exists|p: Policy| #[trigger]
                cfg.is_policy(name, def.ports, p) && e.bantime_seconds == p.bantime.secs
                    && e.findtime_seconds == p.findtime.secs && e.maxretry == p.maxretry
                    && e.escalation == (p.escalate is Some) && e.ports@ == p.ports@
        }),
{
    let def = resolved(cfg, name, src.custom, src.builtin)->Ok_0;
    let p = choose|p: Policy| #[trigger]
        cfg.is_policy(name, def.ports, p) && is_effective(p, def, f.effective_policy);
    assert(cfg.is_policy(name, def.ports, p));
}

/// What an inspection tells of paths and settings, field by field.
pub proof fn law_settings_tell(
    cfg: Config,
    dir: Seq<char>,
    p: InspectionPaths,
    e: EffectiveConfig,
)
    requires
        is_paths(cfg, dir, p),
        is_settings(cfg, e),
    ensures
        p.config_dir@ == dir,
        p.main_config@ == paths::joined(dir, "minsec.toml"@),
        p.conf_dir@ == paths::joined(dir, "conf.d"@),
        p.filters_dir@ == paths::joined(dir, "filters"@),
        p.control_socket@ == cfg.paths.socket@,
        p.state_dir@ == cfg.paths.state_dir@,
        p.events_file@ == paths::joined(cfg.paths.state_dir@, "events.jsonl"@),
        e.defaults.bantime_seconds == cfg.defaults.bantime.0.secs,
        e.defaults.findtime_seconds == cfg.defaults.findtime.0.secs,
        e.defaults.maxretry == cfg.defaults.maxretry,
        e.defaults.escalate_enabled == cfg.defaults.escalate_enabled,
        e.defaults.escalate.factor == cfg.defaults.escalate.factor,
        e.defaults.escalate.max_seconds == cfg.defaults.escalate.max.0.secs,
        e.defaults.escalate.memory_seconds == cfg.defaults.escalate.memory.0.secs,
        e.defaults.allow@ == cfg.defaults.allow@,
        e.defaults.backend == cfg.defaults.backend,
        opt_text(e.defaults.exec_command) == opt_text(cfg.defaults.exec_command),
        e.defaults.ipv6_prefix == cfg.defaults.ipv6_prefix,
        e.defaults.max_tracked == cfg.defaults.max_tracked,
        e.defaults.journal == cfg.defaults.journal,
        e.paths.socket@ == cfg.paths.socket@,
        e.paths.state_dir@ == cfg.paths.state_dir@,
{
}

/// A check names every filter that cannot be loaded, and why, in order, and no other.
pub proof fn law_check_names_the_bad(
    cfg: Config,
    names: Seq<Seq<char>>,
    sources: Seq<DefSource>,
    n: nat,
)
    ensures
        check_errors(cfg, names, sources, n as int) == Seq::new(n, |i: int| i).filter(
            |i: int| load_fault(cfg, names[i], sources[i]) is Some,
        ).map_values(
            |i: int|
                CheckErrorView {
                    filter: Some(names[i]),
                    error: load_fault(cfg, names[i], sources[i])->0,
                },
        ),
    decreases n,
{
    reveal(Seq::filter);
    let p = |i: int| load_fault(cfg, names[i], sources[i]) is Some;
    let f = |i: int|
        CheckErrorView {
            filter: Some(names[i]),
            error: load_fault(cfg, names[i], sources[i])->0,
        };
    let all = Seq::new(n, |i: int| i);
    if n == 0 {
        assert(all.filter(p).map_values(f) =~= Seq::empty());
    } else {
        let m = (n - 1) as nat;
        law_check_names_the_bad(cfg, names, sources, m);
        assert(all.drop_last() =~= Seq::new(m, |i: int| i));
        assert(check_errors(cfg, names, sources, n as int) =~= all.filter(p).map_values(f));
    }
}

/// An inspection of a filter fails where its definition as written or its effective one
/// cannot be had, for the first of the two reasons; escalation is told in seconds.
pub proof fn law_inspection_faults(
    cfg: Config,
    name: Seq<char>,
    src: DefSource,
    v: Seq<CheckError>,
    i: int,
)
    ensures
        inspect_fault(cfg, name, src) == (match (
            raw_def(name, custom_path(cfg.config_dir@, name), src),
            resolved(cfg, name, src.custom, src.builtin),
        ) {
            (Err(e), _) => Some(e),
            (_, Err(e)) => Some(e),
            _ => None,
        }),
        errors_of(v).len() == v.len(),
        0 <= i < v.len() ==> errors_of(v)[i].error == v[i].error@ && errors_of(v)[i].filter == (
        match v[i].filter {
            Some(f) => Some(f@),
            None => None,
        }),
{
}

} // verus!
