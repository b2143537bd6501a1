//! `/etc/minsec/sync.toml`: the multiplayer client's own config file,
//! deliberately separate from the daemon's (which rejects unknown keys).
//! Every field has a default; the file's existence is the opt-in switch for
//! the systemd timer (`run` exits quietly without it).

use vstd::prelude::*;
use vstd::string::*;

use crate::text;
use crate::text::begins;

verus! {

pub const DEFAULT_CONFIG: &'static str = "/etc/minsec/sync.toml";

pub const DEFAULT_SERVER: &'static str = "https://api.minsec.io";

pub const DEFAULT_STATE_DIR: &'static str = "/var/lib/minsec/sync";

pub const DEFAULT_EVENTS: &'static str = "/var/lib/minsec/events.jsonl";

#[derive(Debug, Clone)]
pub struct Config {
    /// Backend base URL.
    pub server: String,
    /// Feed tier to pull: "basic" or "high".
    pub tier: String,
    /// Report local automatic bans to the crowd.
    pub report: bool,
    /// Pull the crowd blocklist into the crowd4/crowd6 nftables sets.
    pub pull: bool,
    pub ipv4: bool,
    pub ipv6: bool,
    pub state_dir: String,
    /// The daemon's event log (source of reports).
    pub events: String,
    /// nft binary.
    pub nft: String,
}

impl Default for Config {
    fn default() -> (r: Self)
        ensures
            r.server@ == DEFAULT_SERVER@,
            r.tier@ == "basic"@,
            r.report && r.pull && r.ipv4 && r.ipv6,
            r.state_dir@ == DEFAULT_STATE_DIR@,
            r.events@ == DEFAULT_EVENTS@,
            r.nft@ == "nft"@,
    {
        Config {
            server: DEFAULT_SERVER.to_owned(),
            tier: "basic".to_owned(),
            report: true,
            pull: true,
            ipv4: true,
            ipv6: true,
            state_dir: DEFAULT_STATE_DIR.to_owned(),
            events: DEFAULT_EVENTS.to_owned(),
            nft: "nft".to_owned(),
        }
    }
}

/// What is wrong with a configuration that was read from `path`.
pub open spec fn config_fault(c: Config, path: Seq<char>) -> Option<Seq<char>> {
    if c.tier@ != "basic"@ && c.tier@ != "high"@ {
        Some(path + ": tier must be \"basic\" or \"high\""@)
    } else if !begins(c.server@, "http://"@) && !begins(c.server@, "https://"@) {
        Some(path + ": server must be an http(s) URL"@)
    } else {
        None
    }
}

impl Config {
    pub fn validate(&self, path: &str) -> (r: Result<(), String>)
        ensures
            match r {
                Ok(()) => config_fault(*self, path@) is None,
                Err(e) => config_fault(*self, path@) == Some(e@),
            },
    {
        if !text::same(self.tier.as_str(), "basic") && !text::same(self.tier.as_str(), "high") {
            let mut out = path.to_owned();
            out.append(": tier must be \"basic\" or \"high\"");
            return Err(out);
        }
        let server = text::chars(self.server.as_str());
        let plain = text::chars("http://");
        let secure = text::chars("https://");
        if !text::begins_with(&server, &plain) && !text::begins_with(&server, &secure) {
            let mut out = path.to_owned();
            out.append(": server must be an http(s) URL");
            return Err(out);
        }
        Ok(())
    }
}

/// A configuration is good exactly if its tier is one of the two and its server has an
/// address for HTTP; the tier is looked at first.
pub proof fn law_good_configurations(c: Config, path: Seq<char>)
    ensures
        ({
            let tier = c.tier@ == "basic"@ || c.tier@ == "high"@;
            let server = (exists|b: Seq<char>| c.server@ == #[trigger] ("http://"@ + b)) || (exists|
                b: Seq<char>,
            | c.server@ == #[trigger] ("https://"@ + b));
            &&& (config_fault(c, path) is None) == (tier && server)
            &&& !tier ==> config_fault(c, path) == Some(
                path + ": tier must be \"basic\" or \"high\""@,
            )
            &&& tier && !server ==> config_fault(c, path) == Some(
                path + ": server must be an http(s) URL"@,
            )
        }),
{
    text::law_occurs("http://"@, c.server@);
    text::law_occurs("https://"@, c.server@);
}

/// Where things are where nothing is configured.
pub proof fn law_default_places()
    ensures
        DEFAULT_CONFIG@ == "/etc/minsec/sync.toml"@,
        DEFAULT_SERVER@ == "https://api.minsec.io"@,
        DEFAULT_STATE_DIR@ == "/var/lib/minsec/sync"@,
        DEFAULT_EVENTS@ == "/var/lib/minsec/events.jsonl"@,
{
}

} // verus!
