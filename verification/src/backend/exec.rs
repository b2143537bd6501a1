//! Escape-hatch backend: run a user command for every ban/unban.
//! Invoked as `<command> ban <net> <ttl-seconds>` / `<command> unban <net>`.

use vstd::prelude::*;
use vstd::string::*;

use super::Ban;
use crate::ip;
use crate::ip::IpNet;
use crate::text;
use crate::text::{decimal, texts};

verus! {

/// The user command.
#[derive(Debug, Clone)]
pub struct Exec {
    pub command: String,
}

impl Exec {
    pub fn new(command: String) -> (r: Self)
        ensures
            r.command@ == command@,
    {
        Exec { command }
    }

    /// The arguments of `/bin/sh` that run the command with `args`.
    pub fn shell_args(&self, args: &Vec<String>) -> (r: Vec<String>)
        ensures
            texts(r@) == seq!["-c"@, self.command@ + " \"$@\""@, "minsec"@] + texts(args@),
    {
        let mut script = self.command.clone();
        script.append(" \"$@\"");
        let mut out: Vec<String> = Vec::new();
        out.push("-c".to_owned());
        out.push(script);
        out.push("minsec".to_owned());
        let ghost head = texts(out@);
        assert(head =~= seq!["-c"@, self.command@ + " \"$@\""@, "minsec"@]);
        let mut i: usize = 0;
        while i < args.len()
            invariant
                i <= args@.len(),
                texts(out@) == head + texts(args@).take(i as int),
            decreases args@.len() - i,
        {
            let ghost before = out@;
            out.push(args[i].clone());
            assert(texts(out@) =~= texts(before).push(args@[i as int]@));
            assert(texts(args@).take(i + 1) =~= texts(args@).take(i as int).push(
                args@[i as int]@,
            ));
            i += 1;
        }
        assert(texts(args@).take(i as int) =~= texts(args@));
        out
    }

    /// What is said of a run that ended in `status`.
    pub fn failure(&self, status: &str) -> (r: String)
        ensures
            r@ == "exec backend `"@ + self.command@ + "` failed: "@ + status@,
    {
        let mut out = "exec backend `".to_owned();
        out.append(self.command.as_str());
        out.append("` failed: ");
        out.append(status);
        out
    }
}

/// The arguments of the preparation.
pub fn setup_args() -> (r: Vec<String>)
    ensures
        texts(r@) == seq!["setup"@],
{
    let mut out: Vec<String> = Vec::new();
    out.push("setup".to_owned());
    assert(texts(out@) =~= seq!["setup"@]);
    out
}

/// The arguments of one ban.
pub fn ban_args(b: &Ban) -> (r: Vec<String>)
    requires
        b.net.wf(),
    ensures
        texts(r@) == seq!["ban"@, ip::nft_text(b.net), decimal(b.ttl@ as nat)],
{
    let mut out: Vec<String> = Vec::new();
    out.push("ban".to_owned());
    out.push(ip::key_to_nft(&b.net));
    out.push(text::decimal_text(b.ttl.as_secs()));
    assert(texts(out@) =~= seq!["ban"@, ip::nft_text(b.net), decimal(b.ttl@ as nat)]);
    out
}

/// The arguments of one unban.
pub fn unban_args(net: &IpNet) -> (r: Vec<String>)
    requires
        net.wf(),
    ensures
        texts(r@) == seq!["unban"@, ip::nft_text(*net)],
{
    let mut out: Vec<String> = Vec::new();
    out.push("unban".to_owned());
    out.push(ip::key_to_nft(net));
    assert(texts(out@) =~= seq!["unban"@, ip::nft_text(*net)]);
    out
}

} // verus!
