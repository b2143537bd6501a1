//! The control socket's requests and responses.

use vstd::prelude::*;

use crate::ip::IpNet;

verus! {

#[derive(Debug, Clone)]
pub enum Request {
    Ping,
    Status,
    List,
    Ban { net: IpNet, ttl: Option<u64> },
    Unban { net: IpNet },
    Filters,
}

/// Counters of one filter.
#[derive(Debug, Clone)]
pub struct FilterStatus {
    pub name: String,
    pub files: Vec<String>,
    pub journal: bool,
    pub maxretry: u32,
    pub findtime: u64,
    pub bantime: u64,
    pub matched: u64,
    pub banned: u64,
}

/// Counters of the daemon.
#[derive(Debug, Clone)]
pub struct Status {
    pub version: String,
    pub backend: String,
    pub uptime: u64,
    /// How many (filter, network) pairs have hits on record.
    pub tracking: usize,
    pub lines: u64,
    pub bans_total: u64,
    pub active_bans: usize,
    pub filters: Vec<FilterStatus>,
}

/// One active ban.
#[derive(Debug, Clone)]
pub struct BanInfo {
    pub net: IpNet,
    pub expires_in: Option<u64>,
    pub filter: Option<String>,
}

#[derive(Debug, Clone)]
pub struct Response {
    pub ok: bool,
    pub error: Option<String>,
    pub message: Option<String>,
    pub status: Option<Status>,
    pub bans: Option<Vec<BanInfo>>,
    pub filters: Option<Vec<String>>,
}

impl Response {
    pub fn ok() -> (r: Response)
        ensures
            r.ok,
            r.error is None,
            r.message is None,
            r.status is None,
            r.bans is None,
            r.filters is None,
    {
        Response { ok: true, error: None, message: None, status: None, bans: None, filters: None }
    }

    pub fn message(m: String) -> (r: Response)
        ensures
            r.ok,
            r.error is None,
            r.message == Some(m),
            r.status is None,
            r.bans is None,
            r.filters is None,
    {
        Response {
            ok: true,
            error: None,
            message: Some(m),
            status: None,
            bans: None,
            filters: None,
        }
    }

    pub fn err(e: String) -> (r: Response)
        ensures
            !r.ok,
            r.error == Some(e),
            r.message is None,
            r.status is None,
            r.bans is None,
            r.filters is None,
    {
        Response {
            ok: false,
            error: Some(e),
            message: None,
            status: None,
            bans: None,
            filters: None,
        }
    }
}

} // verus!
