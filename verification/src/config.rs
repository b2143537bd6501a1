//! Daemon configuration: `/etc/minsec/minsec.toml` plus `conf.d/*.toml` drop-ins.

use vstd::prelude::*;
use vstd::string::*;

use crate::duration::{Duration, HumanDuration};
use crate::filter::{DefView, FilterDef, JournalSelector};
use crate::ip::IpNet;
use crate::paths;
use crate::sorted::SortedMap;
use crate::text;
use crate::text::texts;
use crate::tracker::MAX_RETRY_CAP;

verus! {

pub const DEFAULT_CONFIG_DIR: &'static str = "/etc/minsec";

pub const DEFAULT_SOCKET: &'static str = "/run/minsec/minsec.sock";

pub const DEFAULT_STATE_DIR: &'static str = "/var/lib/minsec";

#[derive(Debug, Clone, Copy, PartialEq, Eq, Structural)]
pub enum BackendKind {
    Nft,
    Null,
    Exec,
}

#[derive(Debug, Clone, Copy, PartialEq, Eq, Structural)]
pub struct Escalate {
    /// Multiply bantime by this for each previous ban of the same key.
    pub factor: u32,
    /// Upper bound on escalated bantime.
    pub max: HumanDuration,
    /// Forget previous bans older than this.
    pub memory: HumanDuration,
}

impl Default for Escalate {
    fn default() -> (r: Self)
        ensures
            r.factor == 2,
            r.max.0@ == 7 * 86_400,
            r.memory.0@ == 30 * 86_400,
    {
        Escalate {
            factor: 2,
            max: HumanDuration(Duration::from_secs(604_800)),
            memory: HumanDuration(Duration::from_secs(2_592_000)),
        }
    }
}

#[derive(Debug, Clone)]
pub struct Defaults {
    pub bantime: HumanDuration,
    pub findtime: HumanDuration,
    pub maxretry: u32,
    /// `false` disables escalation entirely.
    pub escalate_enabled: bool,
    pub escalate: Escalate,
    /// Never ban these networks. Loopback and the host's own addresses are
    /// always implied.
    pub allow: Vec<IpNet>,
    pub backend: BackendKind,
    /// Command for the `exec` backend: receives `ban|unban <ip> <ttl-secs>`.
    pub exec_command: Option<String>,
    /// IPv6 keys are truncated to this prefix length.
    pub ipv6_prefix: u8,
    /// Upper bound on tracked (filter, key) pairs across the daemon.
    pub max_tracked: usize,
    /// Use journald (when present) for filters that declare journal selectors.
    pub journal: bool,
}

/// The settings where the operator says nothing.
pub open spec fn is_defaults(d: Defaults) -> bool {
    &&& d.bantime.0@ == 3600
    &&& d.findtime.0@ == 600
    &&& d.maxretry == 5
    &&& d.escalate_enabled
    &&& d.escalate.factor == 2
    &&& d.escalate.max.0@ == 7 * 86_400
    &&& d.escalate.memory.0@ == 30 * 86_400
    &&& d.allow@.len() == 0
    &&& d.backend == BackendKind::Nft
    &&& d.exec_command is None
    &&& d.ipv6_prefix == 64
    &&& d.max_tracked == 50_000
    &&& d.journal
}

impl Default for Defaults {
    fn default() -> (r: Self)
        ensures
            is_defaults(r),
    {
        Defaults {
            bantime: HumanDuration(Duration::from_secs(3600)),
            findtime: HumanDuration(Duration::from_secs(600)),
            maxretry: 5,
            escalate_enabled: true,
            escalate: Escalate::default(),
            allow: Vec::new(),
            backend: BackendKind::Nft,
            exec_command: None,
            ipv6_prefix: 64,
            max_tracked: 50_000,
            journal: true,
        }
    }
}

/// Per-filter enablement and overrides.
#[derive(Debug, Clone)]
pub struct FilterConfig {
    pub enabled: bool,
    pub bantime: Option<HumanDuration>,
    pub findtime: Option<HumanDuration>,
    pub maxretry: Option<u32>,
    /// Replace the filter's default files.
    pub files: Option<Vec<String>>,
    /// Replace the filter's journal selectors.
    pub journal: Option<JournalSelector>,
    pub ports: Option<Vec<u16>>,
}

impl Default for FilterConfig {
    fn default() -> (r: Self)
        ensures
            !r.enabled,
            r.bantime is None,
            r.findtime is None,
            r.maxretry is None,
            r.files is None,
            r.journal is None,
            r.ports is None,
    {
        FilterConfig {
            enabled: false,
            bantime: None,
            findtime: None,
            maxretry: None,
            files: None,
            journal: None,
            ports: None,
        }
    }
}

/// The same settings, text by text.
pub open spec fn same_settings(a: FilterConfig, b: FilterConfig) -> bool {
    &&& a.enabled == b.enabled
    &&& a.bantime == b.bantime
    &&& a.findtime == b.findtime
    &&& a.maxretry == b.maxretry
    &&& match (a.files, b.files) {
        (Some(x), Some(y)) => texts(x@) == texts(y@),
        (None, None) => true,
        _ => false,
    }
    &&& match (a.journal, b.journal) {
        (Some(x), Some(y)) => x.same_as(&y),
        (None, None) => true,
        _ => false,
    }
    &&& match (a.ports, b.ports) {
        (Some(x), Some(y)) => x@ == y@,
        (None, None) => true,
        _ => false,
    }
}

impl FilterConfig {
    /// A copy, text by text.
    pub fn copy(&self) -> (r: FilterConfig)
        ensures
            same_settings(*self, r),
    {
        FilterConfig {
            enabled: self.enabled,
            bantime: self.bantime,
            findtime: self.findtime,
            maxretry: self.maxretry,
            files: match &self.files {
                Some(f) => Some(text::copy_texts(f)),
                None => None,
            },
            journal: match &self.journal {
                Some(j) => Some(j.copy()),
                None => None,
            },
            ports: match &self.ports {
                Some(p) => Some(copy_ports(p)),
                None => None,
            },
        }
    }
}

#[derive(Debug, Clone)]
pub struct Paths {
    pub socket: String,
    pub state_dir: String,
}

impl Default for Paths {
    fn default() -> (r: Self)
        ensures
            r.socket@ == DEFAULT_SOCKET@,
            r.state_dir@ == DEFAULT_STATE_DIR@,
    {
        Paths { socket: DEFAULT_SOCKET.to_owned(), state_dir: DEFAULT_STATE_DIR.to_owned() }
    }
}

/// The whole configuration.
pub struct Config {
    pub defaults: Defaults,
    pub paths: Paths,
    pub filters: SortedMap<String, FilterConfig>,
    /// Directory of the config file; custom filters live in `<dir>/filters/`.
    pub config_dir: String,
}

impl Default for Config {
    fn default() -> (r: Self)
        ensures
            r.wf(),
            is_defaults(r.defaults),
            r.filters@ == Map::<Seq<char>, FilterConfig>::empty(),
            r.paths.socket@ == DEFAULT_SOCKET@,
            r.paths.state_dir@ == DEFAULT_STATE_DIR@,
            r.config_dir@ == ""@,
            config_fault(r) is None,
    {
        Config {
            defaults: Defaults::default(),
            paths: Paths::default(),
            filters: SortedMap::new(),
            config_dir: "".to_owned(),
        }
    }
}

/// Effective policy for one filter after merging defaults and overrides.
#[derive(Debug, Clone)]
pub struct Policy {
    pub bantime: Duration,
    pub findtime: Duration,
    pub maxretry: u32,
    pub escalate: Option<Escalate>,
    pub ports: Vec<u16>,
}

/// Why a configuration is refused.
#[derive(Debug, Clone)]
pub enum ConfigError {
    MaxRetry,
    FindTime,
    Ipv6Prefix,
    ExecCommand,
    FilterMaxRetry { name: String },
}

/// A [`ConfigError`] as values.
pub enum ConfigFault {
    MaxRetry,
    FindTime,
    Ipv6Prefix,
    ExecCommand,
    FilterMaxRetry { name: Seq<char> },
}

impl View for ConfigError {
    type V = ConfigFault;

    open spec fn view(&self) -> ConfigFault {
        match self {
            ConfigError::MaxRetry => ConfigFault::MaxRetry,
            ConfigError::FindTime => ConfigFault::FindTime,
            ConfigError::Ipv6Prefix => ConfigFault::Ipv6Prefix,
            ConfigError::ExecCommand => ConfigFault::ExecCommand,
            ConfigError::FilterMaxRetry { name } => ConfigFault::FilterMaxRetry { name: name@ },
        }
    }
}

impl ConfigFault {
    /// How the fault reads.
    pub open spec fn text(self) -> Seq<char> {
        match self {
            ConfigFault::MaxRetry => "defaults.maxretry must be 1..=32"@,
            ConfigFault::FindTime => "defaults.findtime must be > 0"@,
            ConfigFault::Ipv6Prefix => "defaults.ipv6_prefix must be 1..=128"@,
            ConfigFault::ExecCommand => "defaults.exec_command is required for the exec backend"@,
            ConfigFault::FilterMaxRetry { name } => "filters."@ + name
                + ".maxretry must be 1..=32"@,
        }
    }
}

impl ConfigError {
    pub fn message(&self) -> (r: String)
        ensures
            r@ == self@.text(),
    {
        match self {
            ConfigError::MaxRetry => "defaults.maxretry must be 1..=32".to_owned(),
            ConfigError::FindTime => "defaults.findtime must be > 0".to_owned(),
            ConfigError::Ipv6Prefix => "defaults.ipv6_prefix must be 1..=128".to_owned(),
            ConfigError::ExecCommand =>
                "defaults.exec_command is required for the exec backend".to_owned(),
            ConfigError::FilterMaxRetry { name } => {
                let mut out = "filters.".to_owned();
                out.append(name.as_str());
                out.append(".maxretry must be 1..=32");
                out
            },
        }
    }
}

/// Whether a number of retries can be tracked.
pub open spec fn retry_ok(m: u32) -> bool {
    1 <= m <= MAX_RETRY_CAP
}

/// Whether a filter's own number of retries is one that cannot be tracked.
pub open spec fn filter_bad(f: FilterConfig) -> bool {
    f.maxretry matches Some(m) && !retry_ok(m)
}

/// The first of the names whose filter has a bad number of retries.
pub open spec fn first_bad(
    names: Seq<Seq<char>>,
    filters: Map<Seq<char>, FilterConfig>,
) -> Option<Seq<char>>
    decreases names.len(),
{
    if names.len() == 0 {
        None
    } else if filter_bad(filters[names[0]]) {
        Some(names[0])
    } else {
        first_bad(names.skip(1), filters)
    }
}

/// What is wrong with a configuration, in the order in which it is looked at.
pub open spec fn config_fault(c: Config) -> Option<ConfigFault> {
    let d = c.defaults;
    if !retry_ok(d.maxretry) {
        Some(ConfigFault::MaxRetry)
    } else if d.findtime.0@ == 0 {
        Some(ConfigFault::FindTime)
    } else if !(1 <= d.ipv6_prefix <= 128) {
        Some(ConfigFault::Ipv6Prefix)
    } else if d.backend == BackendKind::Exec && d.exec_command is None {
        Some(ConfigFault::ExecCommand)
    } else {
        match first_bad(c.filters.keys(), c.filters@) {
            Some(name) => Some(ConfigFault::FilterMaxRetry { name }),
            None => None,
        }
    }
}

/// A configuration without a fault has none in any filter.
pub proof fn lemma_no_bad(names: Seq<Seq<char>>, filters: Map<Seq<char>, FilterConfig>, i: int)
    requires
        first_bad(names, filters) is None,
        0 <= i < names.len(),
    ensures
        !filter_bad(filters[names[i]]),
    decreases names.len(),
{
    if i > 0 {
        assert(names.skip(1)[i - 1] == names[i]);
        lemma_no_bad(names.skip(1), filters, i - 1);
    }
}

/// What reading `<config_dir>/filters/<name>.toml` came to.
pub enum CustomFile {
    /// There is nothing under that path.
    Missing,
    /// What is there cannot be read.
    Unreadable { error: String },
    /// Its text is not a definition.
    Malformed { error: String },
    Parsed { def: FilterDef },
}

/// A definition with the operator's files, journal selectors and ports in place of
/// its own, where there are any.
pub open spec fn overridden(def: DefView, over: Option<FilterConfig>) -> DefView {
    match over {
        None => def,
        Some(fc) => DefView {
            files: match fc.files {
                Some(f) => texts(f@),
                None => def.files,
            },
            units: match fc.journal {
                Some(j) => texts(j.units@),
                None => def.units,
            },
            identifiers: match fc.journal {
                Some(j) => texts(j.identifiers@),
                None => def.identifiers,
            },
            comm: match fc.journal {
                Some(j) => texts(j.comm@),
                None => def.comm,
            },
            ports: match fc.ports {
                Some(p) => p@,
                None => def.ports,
            },
            ..def
        },
    }
}

/// The path of a custom filter definition.
pub open spec fn custom_path(config_dir: Seq<char>, name: Seq<char>) -> Seq<char> {
    paths::joined(paths::joined(config_dir, "filters"@), name + ".toml"@)
}

/// A definition by values, or the message that there is none.
pub open spec fn resolved(
    c: Config,
    name: Seq<char>,
    custom: CustomFile,
    builtin: Option<Result<FilterDef, String>>,
) -> Result<DefView, Seq<char>> {
    let path = custom_path(c.config_dir@, name);
    match custom {
        CustomFile::Parsed { def } => Ok(overridden(def@, c.override_of(name))),
        CustomFile::Malformed { error } => Err(path + ": "@ + error@),
        CustomFile::Unreadable { error } => Err(path + ": "@ + error@),
        CustomFile::Missing => match builtin {
            Some(Ok(def)) => Ok(overridden(def@, c.override_of(name))),
            Some(Err(e)) => Err(e@),
            None => Err("unknown filter `"@ + name + "` (no built-in and no "@ + path + ")"@),
        },
    }
}

/// A copy of a list of numbers.
pub fn copy_ports(v: &Vec<u16>) -> (r: Vec<u16>)
    ensures
        r@ == v@,
{
    let mut r: Vec<u16> = Vec::new();
    let mut i: usize = 0;
    while i < v.len()
        invariant
            i <= v@.len(),
            r@ == v@.take(i as int),
        decreases v@.len() - i,
    {
        r.push(v[i]);
        i += 1;
        assert(v@.take(i as int) =~= v@.take(i - 1).push(v@[i - 1]));
    }
    assert(v@.take(i as int) =~= v@);
    r
}

impl Config {
    /// The filter table is in order.
    pub open spec fn wf(&self) -> bool {
        self.filters.wf()
    }

    /// The operator's settings for a filter.
    pub open spec fn override_of(&self, name: Seq<char>) -> Option<FilterConfig> {
        if self.filters@.contains_key(name) {
            Some(self.filters@[name])
        } else {
            None
        }
    }

    /// Whether `p` is the policy of filter `name`, whose definition has `ports`.
    pub open spec fn is_policy(&self, name: Seq<char>, ports: Seq<u16>, p: Policy) -> bool {
        let over = self.override_of(name);
        let d = self.defaults;
        &&& p.bantime == (match over {
            Some(FilterConfig { bantime: Some(b), .. }) => b.0,
            _ => d.bantime.0,
        })
        &&& p.findtime == (match over {
            Some(FilterConfig { findtime: Some(f), .. }) => f.0,
            _ => d.findtime.0,
        })
        &&& p.maxretry == (match over {
            Some(FilterConfig { maxretry: Some(m), .. }) => m,
            _ => d.maxretry,
        })
        &&& p.escalate == (if d.escalate_enabled {
            Some(d.escalate)
        } else {
            None
        })
        &&& p.ports@ == (match over {
            Some(FilterConfig { ports: Some(p), .. }) => p@,
            _ => ports,
        })
    }

    /// The names of the enabled filters, in order.
    pub open spec fn enabled_names(&self) -> Seq<Seq<char>> {
        self.filters.keys().filter(|k: Seq<char>| self.filters@[k].enabled)
    }

    pub fn validate(&self) -> (r: Result<(), ConfigError>)
        requires
            self.wf(),
        ensures
            match r {
                Ok(()) => config_fault(*self) is None,
                Err(e) => config_fault(*self) == Some(e@),
            },
    {
        let d = &self.defaults;
        if d.maxretry == 0 || d.maxretry > MAX_RETRY_CAP {
            return Err(ConfigError::MaxRetry);
        }
        if d.findtime.secs() == 0 {
            return Err(ConfigError::FindTime);
        }
        if d.ipv6_prefix == 0 || d.ipv6_prefix > 128 {
            return Err(ConfigError::Ipv6Prefix);
        }
        if d.backend == BackendKind::Exec && d.exec_command.is_none() {
            return Err(ConfigError::ExecCommand);
        }
        let ghost names = self.filters.keys();
        let mut i: usize = 0;
        assert(names.skip(0) =~= names);
        let n: usize = self.filters.len();
        while i < n
            invariant
                i <= n,
                n == names.len(),
                self.wf(),
                names == self.filters.keys(),
                config_fault(*self) == (match first_bad(names, self.filters@) {
                    Some(name) => Some(ConfigFault::FilterMaxRetry { name }),
                    None => None,
                }),
                first_bad(names, self.filters@) == first_bad(names.skip(i as int), self.filters@),
            decreases n - i,
        {
            assert(names.skip(i as int)[0] == names[i as int]);
            assert(names.skip(i as int).skip(1) =~= names.skip(i + 1));
            let f = self.filters.value_at(i);
            if let Some(m) = f.maxretry {
                if m == 0 || m > MAX_RETRY_CAP {
                    return Err(ConfigError::FilterMaxRetry { name: self.filters.key_at(i).clone() });
                }
            }
            i += 1;
        }
        Ok(())
    }

    /// Resolve a filter definition: `<config_dir>/filters/<name>.toml` wins
    /// over the built-in of the same name.
    pub fn filter_def(
        &self,
        name: &str,
        custom: CustomFile,
        builtin: Option<Result<FilterDef, String>>,
    ) -> (r: Result<FilterDef, String>)
        requires
            self.wf(),
        ensures
            match r {
                Ok(def) => resolved(*self, name@, custom, builtin) == Ok::<DefView, Seq<char>>(def@),
                Err(e) => resolved(*self, name@, custom, builtin) == Err::<DefView, Seq<char>>(e@),
            },
    {
        let path = self.custom_file(name);
        let def = match custom {
            CustomFile::Parsed { def } => def,
            CustomFile::Malformed { error } => {
                let mut out = path;
                out.append(": ");
                out.append(error.as_str());
                return Err(out);
            },
            CustomFile::Unreadable { error } => {
                let mut out = path;
                out.append(": ");
                out.append(error.as_str());
                return Err(out);
            },
            CustomFile::Missing => match builtin {
                Some(Ok(def)) => def,
                Some(Err(e)) => {
                    return Err(e);
                },
                None => {
                    let mut out = "unknown filter `".to_owned();
                    out.append(name);
                    out.append("` (no built-in and no ");
                    out.append(path.as_str());
                    out.append(")");
                    return Err(out);
                },
            },
        };
        Ok(self.apply(name, def))
    }

    /// Where a custom definition of the filter would stand.
    pub fn custom_file(&self, name: &str) -> (r: String)
        ensures
            r@ == custom_path(self.config_dir@, name@),
    {
        let dir = paths::join(self.config_dir.as_str(), "filters");
        let mut file = name.to_owned();
        file.append(".toml");
        paths::join(dir.as_str(), file.as_str())
    }

    /// The definition with the operator's overrides for `name`.
    fn apply(&self, name: &str, def: FilterDef) -> (r: FilterDef)
        requires
            self.wf(),
        ensures
            r@ == overridden(def@, self.override_of(name@)),
    {
        let mut def = def;
        if let Some(fc) = self.filters.get(&name.to_owned()) {
            if let Some(files) = &fc.files {
                def.files = text::copy_texts(files);
            }
            if let Some(j) = &fc.journal {
                def.journal = j.copy();
            }
            if let Some(p) = &fc.ports {
                def.ports = copy_ports(p);
            }
        }
        def
    }

    pub fn policy_for(&self, name: &str, def: &FilterDef) -> (r: Policy)
        requires
            self.wf(),
        ensures
            self.is_policy(name@, def.ports@, r),
    {
        let d = &self.defaults;
        let mut bantime = d.bantime.0;
        let mut findtime = d.findtime.0;
        let mut maxretry: u32 = d.maxretry;
        let mut ports = copy_ports(&def.ports);
        if let Some(fc) = self.filters.get(&name.to_owned()) {
            if let Some(b) = fc.bantime {
                bantime = b.0;
            }
            if let Some(f) = fc.findtime {
                findtime = f.0;
            }
            if let Some(m) = fc.maxretry {
                maxretry = m;
            }
            if let Some(p) = &fc.ports {
                ports = copy_ports(p);
            }
        }
        let escalate = if d.escalate_enabled {
            Some(d.escalate)
        } else {
            None
        };
        Policy { bantime, findtime, maxretry, escalate, ports }
    }

    /// The names of the enabled filters, in order.
    pub fn enabled_filters(&self) -> (r: Vec<String>)
        requires
            self.wf(),
        ensures
            texts(r@) == self.enabled_names(),
    {
        let ghost names = self.filters.keys();
        let ghost pick = |k: Seq<char>| self.filters@[k].enabled;
        let mut out: Vec<String> = Vec::new();
        let mut i: usize = 0;
        let n: usize = self.filters.len();
        proof {
            assert(names.take(0) =~= Seq::empty());
            assert(texts(out@) =~= names.take(0).filter(pick)) by {
                reveal(Seq::filter);
            }
        }
        while i < n
            invariant
                i <= n,
                n == names.len(),
                self.wf(),
                names == self.filters.keys(),
                pick == (|k: Seq<char>| self.filters@[k].enabled),
                texts(out@) == names.take(i as int).filter(pick),
            decreases n - i,
        {
            let ghost before = out@;
            proof {
                reveal(Seq::filter);
                assert(names.take(i + 1).drop_last() =~= names.take(i as int));
                assert(names.take(i + 1).last() == names[i as int]);
            }
            if self.filters.value_at(i).enabled {
                out.push(self.filters.key_at(i).clone());
                assert(texts(out@) =~= texts(before).push(names[i as int]));
            }
            i += 1;
        }
        assert(names.take(i as int) =~= names);
        out
    }
}

/// A valid configuration gives every filter a number of retries that can be tracked.
pub proof fn law_valid_policy(c: Config, name: Seq<char>, ports: Seq<u16>, p: Policy)
    requires
        c.wf(),
        config_fault(c) is None,
        c.is_policy(name, ports, p),
    ensures
        retry_ok(p.maxretry),
{
    c.filters.lemma_view();
    if c.filters@.contains_key(name) {
        let names = c.filters.keys();
        let i = choose|i: int| 0 <= i < names.len() && names[i] == name;
        lemma_no_bad(names, c.filters@, i);
    }
}

/// A configuration table before it is read: values and nested tables by key.
pub enum Node<T> {
    Leaf(T),
    Table(Vec<(String, Node<T>)>),
}

/// What stands under a key of a table.
pub open spec fn entry<T>(t: Seq<(String, Node<T>)>, k: Seq<char>) -> Option<Node<T>>
    decreases t.len(),
{
    if t.len() == 0 {
        None
    } else if t.last().0@ == k {
        Some(t.last().1)
    } else {
        entry(t.drop_last(), k)
    }
}

/// No key occurs twice.
pub open spec fn keys_once<T>(t: Seq<(String, Node<T>)>) -> bool {
    forall|i: int, j: int| 0 <= i < j < t.len() ==> (#[trigger] t[i]).0@ != (#[trigger] t[j]).0@
}

/// No key occurs twice, in this table and in all below it.
pub open spec fn table_ok<T>(t: Vec<(String, Node<T>)>) -> bool
    decreases t,
{
    &&& keys_once(t@)
    &&& forall|i: int|
        #![trigger t[i]]
        0 <= i < t.len() ==> match t[i].1 {
            Node::Leaf(_) => true,
            Node::Table(u) => table_ok(u),
        }
}

/// `out` is `base` with `over` laid on top: a key of `over` wins, and where both have
/// a table under a key, the tables are merged in the same way.
pub open spec fn is_merge<T>(
    base: Vec<(String, Node<T>)>,
    over: Vec<(String, Node<T>)>,
    out: Vec<(String, Node<T>)>,
) -> bool
    decreases over,
{
    &&& forall|k: Seq<char>|
        entry(over@, k) is None ==> #[trigger] entry(out@, k) == entry(base@, k)
    &&& forall|i: int|
        #![trigger over[i]]
        0 <= i < over.len() ==> match (entry(base@, over[i].0@), over[i].1) {
            (Some(Node::Table(b)), Node::Table(o)) => entry(out@, over[i].0@) matches Some(
                Node::Table(m),
            ) && is_merge(b, o, m),
            (_, v) => entry(out@, over[i].0@) == Some(v),
        }
}

/// What an entry is: one of the table's.
proof fn lemma_entry<T>(t: Seq<(String, Node<T>)>, k: Seq<char>)
    ensures
        match entry(t, k) {
            Some(v) => exists|i: int| 0 <= i < t.len() && (#[trigger] t[i]).0@ == k && t[i].1 == v,
            None => forall|i: int| 0 <= i < t.len() ==> (#[trigger] t[i]).0@ != k,
        },
    decreases t.len(),
{
    if t.len() > 0 && t.last().0@ != k {
        let u = t.drop_last();
        lemma_entry(u, k);
        match entry(u, k) {
            Some(v) => {
                let i = choose|i: int| 0 <= i < u.len() && (#[trigger] u[i]).0@ == k && u[i].1 == v;
                assert(t[i] == u[i]);
            },
            None => {
                assert forall|i: int| 0 <= i < t.len() implies (#[trigger] t[i]).0@ != k by {
                    if i < u.len() {
                        assert(t[i] == u[i]);
                    }
                }
            },
        }
    }
}

/// In a table without double keys, what stands at a place is the entry of its key.
proof fn lemma_entry_at<T>(t: Seq<(String, Node<T>)>, i: int)
    requires
        keys_once(t),
        0 <= i < t.len(),
    ensures
        entry(t, t[i].0@) == Some(t[i].1),
{
    lemma_entry(t, t[i].0@);
    if let Some(v) = entry(t, t[i].0@) {
        let j = choose|j: int| 0 <= j < t.len() && (#[trigger] t[j]).0@ == t[i].0@ && t[j].1 == v;
        if j < i {
            assert(t[j].0@ != t[i].0@);
        } else if i < j {
            assert(t[i].0@ != t[j].0@);
        }
    }
}

/// Entries of a table that lost one place.
proof fn lemma_entry_removed<T>(t: Seq<(String, Node<T>)>, i: int, k: Seq<char>)
    requires
        keys_once(t),
        0 <= i < t.len(),
    ensures
        keys_once(t.remove(i)),
        entry(t.remove(i), k) == (if k == t[i].0@ {
            None
        } else {
            entry(t, k)
        }),
{
    let u = t.remove(i);
    assert forall|a: int, b: int| 0 <= a < b < u.len() implies (#[trigger] u[a]).0@ != (
    #[trigger] u[b]).0@ by {
        let a2 = if a < i { a } else { a + 1 };
        let b2 = if b < i { b } else { b + 1 };
        assert(u[a] == t[a2]);
        assert(u[b] == t[b2]);
    }
    lemma_entry(u, k);
    lemma_entry(t, k);
    if k == t[i].0@ {
        if entry(u, k) is Some {
            let a = choose|a: int| 0 <= a < u.len() && (#[trigger] u[a]).0@ == k;
            let a2 = if a < i { a } else { a + 1 };
            assert(u[a] == t[a2]);
            if a2 < i {
                assert(t[a2].0@ != t[i].0@);
            } else {
                assert(t[i].0@ != t[a2].0@);
            }
        }
    } else if entry(u, k) is Some {
        let v = entry(u, k)->0;
        let a = choose|a: int| 0 <= a < u.len() && (#[trigger] u[a]).0@ == k && u[a].1 == v;
        let a2 = if a < i { a } else { a + 1 };
        assert(u[a] == t[a2]);
        lemma_entry_at(t, a2);
    } else if entry(t, k) is Some {
        let v = entry(t, k)->0;
        let a = choose|a: int| 0 <= a < t.len() && (#[trigger] t[a]).0@ == k && t[a].1 == v;
        let a2 = if a < i { a } else { a - 1 };
        assert(u[a2] == t[a]);
    }
}

/// Entries of a table that got one more.
proof fn lemma_entry_pushed<T>(t: Seq<(String, Node<T>)>, e: (String, Node<T>), k: Seq<char>)
    ensures
        entry(t.push(e), k) == (if k == e.0@ {
            Some(e.1)
        } else {
            entry(t, k)
        }),
{
    assert(t.push(e).drop_last() =~= t);
}

/// Deep-merge tables: `over` wins; nested tables merge recursively.
pub fn merge<T>(base: &mut Vec<(String, Node<T>)>, over: Vec<(String, Node<T>)>)
    requires
        table_ok(*old(base)),
        table_ok(over),
    ensures
        table_ok(*final(base)),
        is_merge(*old(base), over, *final(base)),
    decreases over,
{
    let ghost first = *base;
    let ghost all = over;
    let mut rest = over;
    assert(rest@ =~= all@.take(all@.len() as int));
    while rest.len() > 0
        invariant
            table_ok(*base),
            table_ok(first),
            table_ok(all),
            all == over,
            rest@.len() <= all@.len(),
            rest@ == all@.take(rest@.len() as int),
            forall|k: Seq<char>|
                (forall|i: int|
                    rest@.len() <= i < all@.len() ==> (#[trigger] all@[i]).0@ != k)
                    ==> #[trigger] entry(base@, k) == entry(first@, k),
            forall|i: int|
                #![trigger all[i]]
                rest@.len() <= i < all.len() ==> match (entry(first@, all[i].0@), all[i].1) {
                    (Some(Node::Table(b)), Node::Table(o)) => entry(base@, all[i].0@) matches Some(
                        Node::Table(m),
                    ) && is_merge(b, o, m),
                    (_, v) => entry(base@, all[i].0@) == Some(v),
                },
        decreases rest@.len(),
    {
        let ghost n = rest@.len() as int;
        let ghost before = *base;
        let (k, v) = rest.pop().unwrap();
        assert((k, v) == all@[n - 1]);
        assert(all[n - 1] == all@[n - 1]);
        assert(rest@ =~= all@.take(n - 1));
        assert(entry(before@, k@) == entry(first@, k@)) by {
            assert forall|i: int| n <= i < all@.len() implies (#[trigger] all@[i]).0@ != k@ by {
                assert(all@[n - 1].0@ != all@[i].0@);
            }
        }
        let mut at: usize = 0;
        while at < base.len() && !text::same(base[at].0.as_str(), k.as_str())
            invariant
                at <= base@.len(),
                *base == before,
                forall|i: int| 0 <= i < at ==> (#[trigger] base@[i]).0@ != k@,
            decreases base@.len() - at,
        {
            at += 1;
        }
        let ghost kv = k@;
        if at < base.len() {
            proof {
                lemma_entry_at(before@, at as int);
                assert(before[at as int] == before@[at as int]);
            }
            let (bk, bv) = base.remove(at);
            let ghost removed = *base;
            let merged = match (bv, v) {
                (Node::Table(mut b), Node::Table(o)) => {
                    assert(decreases_to!(over => over[n - 1]));
                    merge(&mut b, o);
                    Node::Table(b)
                },
                (_, v) => v,
            };
            base.push((bk, merged));
            proof {
                lemma_entry_removed(before@, at as int, kv);
                lemma_table_push(removed, *base, before, at as int, (bk, merged));
                assert forall|x: Seq<char>| x != kv implies #[trigger] entry(base@, x) == entry(
                    before@,
                    x,
                ) by {
                    lemma_entry_removed(before@, at as int, x);
                    lemma_entry_pushed(removed@, (bk, merged), x);
                }
                lemma_entry_pushed(removed@, (bk, merged), kv);
            }
        } else {
            let ghost pushed = (k, v);
            base.push((k, v));
            proof {
                lemma_entry(before@, kv);
                lemma_table_grow(before, *base, pushed);
                assert forall|x: Seq<char>| x != kv implies #[trigger] entry(base@, x) == entry(
                    before@,
                    x,
                ) by {
                    lemma_entry_pushed(before@, pushed, x);
                }
                lemma_entry_pushed(before@, pushed, kv);
                assert(entry(first@, kv) is None) by {
                    if entry(before@, kv) is Some {
                        let i = choose|i: int|
                            0 <= i < before@.len() && (#[trigger] before@[i]).0@ == kv;
                        assert(before@[i].0@ != kv);
                    }
                }
            }
        }
        proof {
            assert forall|i: int|
                #![trigger all[i]]
                n - 1 <= i < all.len() implies match (entry(first@, all[i].0@), all[i].1) {
                (Some(Node::Table(b)), Node::Table(o)) => entry(base@, all[i].0@) matches Some(
                    Node::Table(m),
                ) && is_merge(b, o, m),
                (_, v) => entry(base@, all[i].0@) == Some(v),
            } by {
                if i > n - 1 {
                    assert(all@[n - 1].0@ != all@[i].0@);
                    assert(entry(base@, all[i].0@) == entry(before@, all[i].0@));
                }
            }
            assert forall|x: Seq<char>|
                (forall|i: int| n - 1 <= i < all@.len() ==> (#[trigger] all@[i]).0@ != x)
                implies #[trigger] entry(base@, x) == entry(first@, x) by {
                assert(all@[n - 1].0@ != x);
                assert(entry(base@, x) == entry(before@, x));
            }
        }
    }
    proof {
        assert forall|k: Seq<char>| entry(all@, k) is None implies #[trigger] entry(base@, k)
            == entry(first@, k) by {
            lemma_entry(all@, k);
        }
    }
}

/// `out` is `base` with all of `overs` laid on top, one after the other.
pub open spec fn is_layered<T>(
    base: Vec<(String, Node<T>)>,
    overs: Seq<Vec<(String, Node<T>)>>,
    out: Vec<(String, Node<T>)>,
) -> bool
    decreases overs.len(),
{
    if overs.len() == 0 {
        out == base
    } else {
        exists|mid: Vec<(String, Node<T>)>|
            is_layered(base, overs.drop_last(), mid) && #[trigger] is_merge(mid, overs.last(), out)
    }
}

/// The main table with the drop-ins merged over it, in their order: the last one wins.
pub fn layered<T>(base: Vec<(String, Node<T>)>, overs: Vec<Vec<(String, Node<T>)>>) -> (r: Vec<
    (String, Node<T>),
>)
    requires
        table_ok(base),
        forall|i: int| 0 <= i < overs@.len() ==> table_ok(#[trigger] overs@[i]),
    ensures
        table_ok(r),
        is_layered(base, overs@, r),
{
    let ghost all = overs@;
    let mut out = base;
    let mut rest = overs;
    let ghost mut done: int = 0;
    assert(all.take(0) =~= Seq::empty());
    assert(all.skip(0) =~= all);
    while rest.len() > 0
        invariant
            0 <= done <= all.len(),
            rest@ == all.skip(done),
            forall|i: int| 0 <= i < all.len() ==> table_ok(#[trigger] all[i]),
            table_ok(out),
            is_layered(base, all.take(done), out),
        decreases rest@.len(),
    {
        assert(rest@[0] == all[done]);
        assert(rest@.remove(0) =~= all.skip(done + 1));
        assert(all.take(done + 1).drop_last() =~= all.take(done));
        assert(all.take(done + 1).last() == all[done]);
        let over = rest.remove(0);
        let ghost before = out;
        assert(is_layered(base, all.take(done + 1).drop_last(), before));
        merge(&mut out, over);
        assert(is_merge(before, all.take(done + 1).last(), out));
        proof {
            done = done + 1;
        }
    }
    assert(all.take(done) =~= all);
    out
}

/// A table in order that lost a place and got a new entry under the key it lost.
proof fn lemma_table_push<T>(
    removed: Vec<(String, Node<T>)>,
    out: Vec<(String, Node<T>)>,
    before: Vec<(String, Node<T>)>,
    at: int,
    e: (String, Node<T>),
)
    requires
        table_ok(before),
        0 <= at < before@.len(),
        removed@ == before@.remove(at),
        out@ == removed@.push(e),
        e.0@ == before@[at].0@,
        e.1 matches Node::Table(u) ==> table_ok(u),
    ensures
        table_ok(out),
{
    lemma_entry_removed(before@, at, e.0@);
    lemma_entry(removed@, e.0@);
    assert forall|i: int|
        #![trigger removed[i]]
        0 <= i < removed.len() implies match removed[i].1 {
        Node::Leaf(_) => true,
        Node::Table(u) => table_ok(u),
    } by {
        let j = if i < at { i } else { i + 1 };
        assert(removed@[i] == before@[j]);
        assert(before[j] == before@[j]);
    }
    assert(table_ok(removed));
    lemma_table_grow(removed, out, e);
}

/// A table in order that got an entry under a new key.
proof fn lemma_table_grow<T>(
    t: Vec<(String, Node<T>)>,
    out: Vec<(String, Node<T>)>,
    e: (String, Node<T>),
)
    requires
        table_ok(t),
        out@ == t@.push(e),
        forall|i: int| 0 <= i < t@.len() ==> (#[trigger] t@[i]).0@ != e.0@,
        e.1 matches Node::Table(u) ==> table_ok(u),
    ensures
        table_ok(out),
{
    assert forall|a: int, b: int| 0 <= a < b < out@.len() implies (#[trigger] out@[a]).0@ != (
    #[trigger] out@[b]).0@ by {
        assert(out@[a] == t@[a]);
        if b < t@.len() {
            assert(out@[b] == t@[b]);
        }
    }
    assert forall|i: int|
        #![trigger out[i]]
        0 <= i < out.len() implies match out[i].1 {
        Node::Leaf(_) => true,
        Node::Table(u) => table_ok(u),
    } by {
        if i < t@.len() {
            assert(out@[i] == t@[i]);
            assert(t[i] == t@[i]);
        }
    }
}

/// The settings where the operator says nothing: bans of an hour for 5 hits in ten
/// minutes; repeat offenders doubly banned up to a week, remembered for 30 days; nothing
/// allowed; nftables; IPv6 by /64; 50000 keys on record; the journal in use.
pub proof fn law_default_settings(d: Defaults)
    requires
        is_defaults(d),
    ensures
        d.bantime.0.secs == 3600 && d.findtime.0.secs == 600 && d.maxretry == 5,
        d.escalate_enabled && d.escalate.factor == 2 && d.escalate.max.0.secs == 604_800,
        d.escalate.memory.0.secs == 2_592_000,
        d.allow@ == Seq::<crate::ip::IpNet>::empty(),
        d.backend is Nft && d.exec_command is None,
        d.ipv6_prefix == 64 && d.max_tracked == 50_000 && d.journal,
{
    assert(d.allow@ =~= Seq::<crate::ip::IpNet>::empty());
}

/// A configuration is valid exactly if it asks for 1 to 32 hits, a time to count them
/// in, an IPv6 prefix of 1 to 128 bits and, for the exec backend, a command, and if no
/// filter asks for less than 1 or more than 32 hits.
pub proof fn law_valid_configurations(c: Config)
    requires
        c.wf(),
    ensures
        (config_fault(c) is None) == (1 <= c.defaults.maxretry <= 32 && c.defaults.findtime.0.secs
            > 0 && 1 <= c.defaults.ipv6_prefix <= 128 && !(c.defaults.backend is Exec
            && c.defaults.exec_command is None) && forall|name: Seq<char>|
            #![trigger c.filters@.contains_key(name)]
            c.filters@.contains_key(name) ==> match c.filters@[name].maxretry {
                Some(m) => 1 <= m <= 32,
                None => true,
            }),
{
    c.filters.lemma_view();
    let names = c.filters.keys();
    lemma_first_bad(names, c.filters@);
    if first_bad(names, c.filters@) is None {
        assert forall|name: Seq<char>|
            #![trigger c.filters@.contains_key(name)]
            c.filters@.contains_key(name) implies match c.filters@[name].maxretry {
            Some(m) => 1 <= m <= 32,
            None => true,
        } by {
            let k = choose|k: int| 0 <= k < names.len() && names[k] == name;
            lemma_no_bad(names, c.filters@, k);
        }
    } else {
        let bad = first_bad(names, c.filters@)->0;
        assert(c.filters@.contains_key(bad));
    }
}

/// A bad filter that is named is one.
proof fn lemma_first_bad(names: Seq<Seq<char>>, filters: Map<Seq<char>, FilterConfig>)
    ensures
        first_bad(names, filters) matches Some(n) ==> names.contains(n) && filter_bad(filters[n]),
    decreases names.len(),
{
    if names.len() > 0 {
        assert(names[0] == names[0]);
        if !filter_bad(filters[names[0]]) {
            let rest = names.skip(1);
            lemma_first_bad(rest, filters);
            if let Some(n) = first_bad(rest, filters) {
                let k = choose|k: int| 0 <= k < rest.len() && rest[k] == n;
                assert(names[k + 1] == n);
            }
        }
    }
}

/// The fault that is reported is the first: the number of hits, the time to count them
/// in, the prefix, the command, and the filters in order.
pub proof fn law_faults_in_order(c: Config)
    ensures
        ({
            let d = c.defaults;
            let hits = 1 <= d.maxretry <= 32;
            let time = d.findtime.0.secs > 0;
            let prefix = 1 <= d.ipv6_prefix <= 128;
            let command = !(d.backend is Exec && d.exec_command is None);
            &&& !hits ==> config_fault(c) == Some(ConfigFault::MaxRetry)
            &&& hits && !time ==> config_fault(c) == Some(ConfigFault::FindTime)
            &&& hits && time && !prefix ==> config_fault(c) == Some(ConfigFault::Ipv6Prefix)
            &&& hits && time && prefix && !command ==> config_fault(c) == Some(
                ConfigFault::ExecCommand,
            )
            &&& config_fault(c) matches Some(ConfigFault::FilterMaxRetry { name }) ==> hits && time
                && prefix && command && c.filters.keys().contains(name) && (
            c.filters@[name].maxretry matches Some(m) && !(1 <= m <= 32))
        }),
{
    lemma_first_bad(c.filters.keys(), c.filters@);
}

/// What the operator sets for a filter replaces what its definition says, setting by
/// setting, and nothing else changes.
pub proof fn law_overrides_replace(def: DefView, over: Option<FilterConfig>)
    ensures
        ({
            let r = overridden(def, over);
            let files = match over {
                Some(fc) if fc.files is Some => texts(fc.files->0@),
                _ => def.files,
            };
            let ports = match over {
                Some(fc) if fc.ports is Some => fc.ports->0@,
                _ => def.ports,
            };
            &&& r.name == def.name && r.description == def.description && r.prefilter
                == def.prefilter && r.patterns == def.patterns && r.ignore == def.ignore
            &&& r.files == files && r.ports == ports
            &&& match over {
                Some(fc) if fc.journal is Some => r.units == texts(fc.journal->0.units@)
                    && r.identifiers == texts(fc.journal->0.identifiers@) && r.comm == texts(
                    fc.journal->0.comm@,
                ),
                _ => r.units == def.units && r.identifiers == def.identifiers && r.comm == def.comm,
            }
        }),
{
}

/// The policy of a filter is made of its own settings, and of the general ones where it
/// has none; ports are those of its definition where the operator sets none.
pub proof fn law_policy_in_full(c: Config, name: Seq<char>, ports: Seq<u16>, p: Policy)
    requires
        c.is_policy(name, ports, p),
    ensures
        ({
            let d = c.defaults;
            let own = c.filters@.contains_key(name);
            let f = c.filters@[name];
            &&& p.bantime.secs == (if own && f.bantime is Some {
                { let x = f.bantime->0; x.0.secs }
            } else {
                d.bantime.0.secs
            })
            &&& p.findtime.secs == (if own && f.findtime is Some {
                { let x = f.findtime->0; x.0.secs }
            } else {
                d.findtime.0.secs
            })
            &&& p.maxretry == (if own && f.maxretry is Some {
                f.maxretry->0
            } else {
                d.maxretry
            })
            &&& p.ports@ == (if own && f.ports is Some {
                f.ports->0@
            } else {
                ports
            })
            &&& (p.escalate is Some) == d.escalate_enabled
            &&& p.escalate matches Some(e) ==> e == d.escalate
        }),
{
}

/// A definition comes from the file of its own where there is one, and from the built-in
/// ones otherwise, with the operator's settings in it; a file that cannot be used is an
/// error even where there is a built-in definition.
pub proof fn law_definitions_resolved(
    c: Config,
    name: Seq<char>,
    custom: CustomFile,
    builtin: Option<Result<FilterDef, String>>,
)
    ensures
        ({
            let r = resolved(c, name, custom, builtin);
            let over = if c.filters@.contains_key(name) {
                Some(c.filters@[name])
            } else {
                None
            };
            let path = custom_path(c.config_dir@, name);
            &&& custom matches CustomFile::Parsed { def } ==> r == Ok::<DefView, Seq<char>>(
                overridden(def@, over),
            )
            &&& custom matches CustomFile::Malformed { error } ==> r == Err::<DefView, Seq<char>>(
                path + ": "@ + error@,
            )
            &&& custom matches CustomFile::Unreadable { error } ==> r == Err::<DefView, Seq<char>>(
                path + ": "@ + error@,
            )
            &&& custom is Missing ==> match builtin {
                Some(Ok(def)) => r == Ok::<DefView, Seq<char>>(overridden(def@, over)),
                Some(Err(e)) => r == Err::<DefView, Seq<char>>(e@),
                None => r == Err::<DefView, Seq<char>>(
                    "unknown filter `"@ + name + "` (no built-in and no "@ + path + ")"@,
                ),
            }
        }),
{
}

/// A definition of a filter's own stands in the directory `filters`, under its name with
/// `.toml` behind it.
pub proof fn law_custom_path(dir: Seq<char>, name: Seq<char>)
    requires
        dir.len() > 0,
        dir.last() != '/',
        name.len() > 0,
        name[0] != '/',
    ensures
        custom_path(dir, name) == dir + "/filters/"@ + name + ".toml"@,
{
    reveal_strlit("filters");
    reveal_strlit("/filters/");
    assert("/filters/"@ =~= seq!['/'] + "filters"@ + seq!['/']);
    assert("filters"@[0] == 'f' && "filters"@[6] == 's' && "filters"@.len() == 7);
    let d = paths::joined(dir, "filters"@);
    assert(d =~= dir.push('/') + "filters"@);
    assert(d.last() == 's');
    assert((name + ".toml"@)[0] == name[0]);
    assert(custom_path(dir, name) =~= dir + "/filters/"@ + name + ".toml"@);
}

/// The enabled filters are those that the operator enables, each once and in order.
pub proof fn law_enabled_exactly(c: Config, name: Seq<char>)
    requires
        c.wf(),
    ensures
        c.enabled_names().contains(name) == (c.filters@.contains_key(name)
            && c.filters@[name].enabled),
        c.enabled_names().no_duplicates(),
{
    c.filters.lemma_view();
    let keys = c.filters.keys();
    let p = |k: Seq<char>| c.filters@[k].enabled;
    keys.filter_lemma(p);
    lemma_filter_unique(keys, p);
    if c.enabled_names().contains(name) {
        let k = choose|k: int| 0 <= k < c.enabled_names().len() && c.enabled_names()[k] == name;
        assert(p(c.enabled_names()[k]));
        keys.lemma_filter_contains_rev(p, name);
    }
    if c.filters@.contains_key(name) && c.filters@[name].enabled {
        let k = choose|k: int| 0 <= k < keys.len() && keys[k] == name;
        assert(p(keys[k]));
        assert(c.enabled_names().contains(keys[k]));
    }
}

proof fn lemma_filter_unique<T>(s: Seq<T>, p: spec_fn(T) -> bool)
    requires
        s.no_duplicates(),
    ensures
        s.filter(p).no_duplicates(),
    decreases s.len(),
{
    reveal(Seq::filter);
    if s.len() > 0 {
        let u = s.drop_last();
        lemma_filter_unique(u, p);
        let f = u.filter(p);
        assert forall|i: int| 0 <= i < f.len() implies #[trigger] f[i] != s.last() by {
            assert(f.contains(f[i]));
            u.lemma_filter_contains_rev(p, f[i]);
            let k = choose|k: int| 0 <= k < u.len() && u[k] == f[i];
            assert(s[k] == u[k]);
        }
    }
}

/// One table over another, key by key: a key that only one of them has keeps its value;
/// where both have a table the two are merged in the same way; otherwise the upper one
/// wins.
pub proof fn law_merge_key_by_key<T>(
    base: Vec<(String, Node<T>)>,
    over: Vec<(String, Node<T>)>,
    out: Vec<(String, Node<T>)>,
    k: Seq<char>,
)
    requires
        table_ok(over),
        is_merge(base, over, out),
    ensures
        match (entry(base@, k), entry(over@, k)) {
            (b, None) => entry(out@, k) == b,
            (Some(Node::Table(b)), Some(Node::Table(o))) => entry(out@, k) matches Some(
                Node::Table(m),
            ) && is_merge(b, o, m),
            (_, Some(v)) => entry(out@, k) == Some(v),
        },
{
    lemma_entry(over@, k);
    if let Some(v) = entry(over@, k) {
        let i = choose|i: int| 0 <= i < over@.len() && (#[trigger] over@[i]).0@ == k && over@[i].1 == v;
        assert(over[i] == over@[i]);
    }
}

/// A table's entry under a key is that of the place with the key.
pub proof fn law_table_entries<T>(t: Seq<(String, Node<T>)>, i: int, k: Seq<char>)
    requires
        keys_once(t),
        0 <= i < t.len(),
    ensures
        entry(t, t[i].0@) == Some(t[i].1),
        (forall|j: int| 0 <= j < t.len() ==> (#[trigger] t[j]).0@ != k) ==> entry(t, k) is None,
{
    lemma_entry_at(t, i);
    lemma_entry(t, k);
}

/// The last layer lies on top of all before it.
pub proof fn law_layers<T>(
    base: Vec<(String, Node<T>)>,
    overs: Seq<Vec<(String, Node<T>)>>,
    over: Vec<(String, Node<T>)>,
    out: Vec<(String, Node<T>)>,
)
    ensures
        is_layered(base, Seq::empty(), out) == (out == base),
        is_layered(base, overs.push(over), out) == exists|mid: Vec<(String, Node<T>)>|
            is_layered(base, overs, mid) && #[trigger] is_merge(mid, over, out),
{
    let all = overs.push(over);
    assert(all.drop_last() =~= overs);
    assert(all.last() == over);
    if is_layered(base, all, out) {
        let mid = choose|mid: Vec<(String, Node<T>)>|
            is_layered(base, all.drop_last(), mid) && #[trigger] is_merge(mid, all.last(), out);
        assert(is_layered(base, overs, mid) && is_merge(mid, over, out));
    }
    if exists|mid: Vec<(String, Node<T>)>|
        is_layered(base, overs, mid) && #[trigger] is_merge(mid, over, out) {
        let mid = choose|mid: Vec<(String, Node<T>)>|
            is_layered(base, overs, mid) && #[trigger] is_merge(mid, over, out);
        assert(is_layered(base, all.drop_last(), mid) && is_merge(mid, all.last(), out));
    }
}

/// How faults read.
pub proof fn law_faults_read(name: Seq<char>)
    ensures
        ConfigFault::MaxRetry.text() == "defaults.maxretry must be 1..=32"@,
        ConfigFault::FindTime.text() == "defaults.findtime must be > 0"@,
        ConfigFault::Ipv6Prefix.text() == "defaults.ipv6_prefix must be 1..=128"@,
        ConfigFault::ExecCommand.text()
            == "defaults.exec_command is required for the exec backend"@,
        (ConfigFault::FilterMaxRetry { name }).text() == "filters."@ + name
            + ".maxretry must be 1..=32"@,
{
}

/// Settings are the same exactly if all of them are.
pub proof fn law_same_settings(a: FilterConfig, b: FilterConfig)
    requires
        same_settings(a, b),
    ensures
        a.enabled == b.enabled && a.bantime == b.bantime && a.findtime == b.findtime && a.maxretry
            == b.maxretry,
        (a.files is Some) == (b.files is Some),
        a.files is Some ==> texts(a.files->0@) == texts(b.files->0@),
        (a.ports is Some) == (b.ports is Some),
        a.ports is Some ==> a.ports->0@ == b.ports->0@,
        (a.journal is Some) == (b.journal is Some),
        a.journal is Some ==> texts(a.journal->0.units@) == texts(b.journal->0.units@) && texts(
            a.journal->0.identifiers@,
        ) == texts(b.journal->0.identifiers@) && texts(a.journal->0.comm@) == texts(
            b.journal->0.comm@,
        ),
{
}

/// Where things are where nothing is configured.
pub proof fn law_default_places()
    ensures
        DEFAULT_CONFIG_DIR@ == "/etc/minsec"@,
        DEFAULT_SOCKET@ == "/run/minsec/minsec.sock"@,
        DEFAULT_STATE_DIR@ == "/var/lib/minsec"@,
{
}

} // verus!
