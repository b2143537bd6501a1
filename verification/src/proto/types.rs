//! Request and response bodies.

use vstd::prelude::*;

verus! {

/// One reported automatic ban. `ip` is a CIDR string: IPv4 `/24` to `/32`,
/// IPv6 `/48` to `/64`. Manual bans and unbans are never reported.
#[derive(Debug, Clone)]
pub struct Report {
    pub ts: i64,
    pub ip: String,
    pub filter: String,
    pub count: i64,
    pub ban_ttl: i64,
    /// Repeat-offender depth from the daemon's escalation ladder: 0 on a
    /// first ban, incrementing each time the address is re-banned inside
    /// the escalation memory.
    pub escalation: u32,
}

/// A [`Report`] as values.
pub struct ReportView {
    pub ts: i64,
    pub ip: Seq<char>,
    pub filter: Seq<char>,
    pub count: i64,
    pub ban_ttl: i64,
    pub escalation: u32,
}

impl View for Report {
    type V = ReportView;

    open spec fn view(&self) -> ReportView {
        ReportView {
            ts: self.ts,
            ip: self.ip@,
            filter: self.filter@,
            count: self.count,
            ban_ttl: self.ban_ttl,
            escalation: self.escalation,
        }
    }
}

/// Reports as values.
pub open spec fn reports_of(v: Seq<Report>) -> Seq<ReportView> {
    v.map_values(|r: Report| r@)
}

impl Report {
    /// A copy.
    pub fn copy(&self) -> (r: Report)
        ensures
            r@ == self@,
    {
        Report {
            ts: self.ts,
            ip: self.ip.clone(),
            filter: self.filter.clone(),
            count: self.count,
            ban_ttl: self.ban_ttl,
            escalation: self.escalation,
        }
    }
}

/// Body of `POST /v1/reports`. `seq` must strictly increase per agent.
#[derive(Debug, Clone)]
pub struct ReportBatch {
    pub seq: u64,
    pub agent_version: String,
    pub reports: Vec<Report>,
}

#[derive(Debug, Clone, Copy, PartialEq, Eq, Structural)]
pub struct ReportResponse {
    pub accepted: u64,
    pub rejected: u64,
    pub duplicate: bool,
}

/// Response of `POST /v1/enroll/challenge`.
#[derive(Debug, Clone)]
pub struct Challenge {
    pub challenge: String,
    pub difficulty: u32,
    pub expires_in: u64,
    pub algo: String,
}

pub const POW_ALGO: &'static str = "sha256-pow-v1";

/// Body of `POST /v1/enroll`.
#[derive(Debug, Clone)]
pub struct EnrollRequest {
    pub challenge: String,
    pub pow_nonce: String,
    /// base64 (std) 32-byte Ed25519 public key.
    pub pubkey: String,
    pub agent_version: String,
    /// Reserved for Virtualmin licensing; always absent in v1.
    pub install_token: Option<String>,
}

#[derive(Debug, Clone)]
pub struct EnrollResponse {
    pub host_id: String,
    pub report_url: String,
    pub feed_url: String,
    /// Minimum seconds between report submissions.
    pub min_report_interval: u64,
}

/// Error body used by every non-2xx JSON response.
#[derive(Debug, Clone)]
pub struct ErrorResponse {
    pub error: String,
    pub message: String,
}

/// A report tells all of its fields as values.
pub proof fn law_report_tells_all(r: Report)
    ensures
        r@.ts == r.ts && r@.ip == r.ip@ && r@.filter == r.filter@ && r@.count == r.count
            && r@.ban_ttl == r.ban_ttl && r@.escalation == r.escalation,
{
}

} // verus!
