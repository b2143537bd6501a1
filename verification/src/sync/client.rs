//! What goes to the API and what its replies mean. Non-2xx responses become
//! `ApiError` with the server's error code, so callers can react to
//! specific codes (`already_enrolled`, `quota_exceeded`, ..).

use vstd::prelude::*;
use vstd::string::*;

use crate::foreign;
use crate::proto::sign;
use crate::proto::sign::{canonical, signed_decimal, SigningKey};
use crate::proto::types::{Challenge, ErrorResponse, POW_ALGO};
use crate::scan;
use crate::text;
use crate::text::{decimal, opt_text};
use vstd::utf8::encode_utf8;

verus! {

/// The server.
#[derive(Debug, Clone)]
pub struct Api {
    pub server: String,
}

#[derive(Debug, Clone)]
pub struct ApiError {
    pub status: u16,
    pub code: String,
    pub message: String,
    pub retry_after: Option<u64>,
}

/// A feed fetch outcome.
#[derive(Debug, Clone)]
pub enum FeedFetch {
    NotModified,
    Body { text: String, etag: String },
}

/// How an error reads.
pub open spec fn error_text(
    status: u16,
    code: Seq<char>,
    message: Seq<char>,
    retry_after: Option<u64>,
) -> Seq<char> {
    "server said "@ + code + " ("@ + decimal(status as nat) + ")"@ + (if message.len() > 0 {
        ": "@ + message
    } else {
        Seq::empty()
    }) + (match retry_after {
        Some(s) => " [retry after "@ + decimal(s as nat) + "s]"@,
        None => Seq::empty(),
    })
}

impl ApiError {
    pub fn message(&self) -> (r: String)
        ensures
            r@ == error_text(self.status, self.code@, self.message@, self.retry_after),
    {
        let mut out = "server said ".to_owned();
        out.append(self.code.as_str());
        out.append(" (");
        text::push_decimal(&mut out, self.status as u64);
        out.append(")");
        let ghost base = out@;
        let empty: bool = text::chars(self.message.as_str()).len() == 0;
        if !empty {
            out.append(": ");
            out.append(self.message.as_str());
        }
        let ghost mid = out@;
        assert(mid =~= base + (if self.message@.len() > 0 {
            ": "@ + self.message@
        } else {
            Seq::empty()
        }));
        if let Some(s) = self.retry_after {
            out.append(" [retry after ");
            text::push_decimal(&mut out, s);
            out.append("s]");
        }
        assert(out@ =~= error_text(self.status, self.code@, self.message@, self.retry_after));
        out
    }
}

/// A text without the slashes at its end.
pub open spec fn without_slashes(s: Seq<char>) -> Seq<char>
    decreases s.len(),
{
    if s.len() > 0 && s.last() == '/' {
        without_slashes(s.drop_last())
    } else {
        s
    }
}

/// The first `n` characters, or all of them.
pub open spec fn prefix(s: Seq<char>, n: int) -> Seq<char> {
    if s.len() <= n {
        s
    } else {
        s.take(n)
    }
}

/// Characters of a body that go into an error message.
pub const MESSAGE_CHARS: usize = 200;

/// The value of a `Retry-After` header.
pub open spec fn retry_of(header: Option<Seq<char>>) -> Option<u64> {
    match header {
        Some(h) => match scan::number(h, false) {
            Some(n) => if n <= u64::MAX {
                Some(n as u64)
            } else {
                None
            },
            None => None,
        },
        None => None,
    }
}

/// The error that a reply is; `parsed` is its body, where that is an error body.
pub fn error_from(
    status: u16,
    retry_after: Option<u64>,
    body: &str,
    parsed: Option<ErrorResponse>,
) -> (r: ApiError)
    ensures
        r.status == status,
        r.retry_after == retry_after,
        match parsed {
            Some(e) => r.code@ == e.error@ && r.message@ == e.message@,
            None => r.code@ == "http_"@ + decimal(status as nat) && r.message@ == prefix(
                body@,
                MESSAGE_CHARS as int,
            ),
        },
{
    match parsed {
        Some(e) => ApiError { status, code: e.error, message: e.message, retry_after },
        None => {
            let mut code = "http_".to_owned();
            text::push_decimal(&mut code, status as u64);
            let v = text::chars(body);
            let n: usize = if v.len() <= MESSAGE_CHARS {
                v.len()
            } else {
                MESSAGE_CHARS
            };
            let head = text::copied(&v, 0, n);
            assert(head@ =~= prefix(body@, MESSAGE_CHARS as int));
            ApiError { status, code, message: text::text(&head), retry_after }
        },
    }
}

/// A reply: its body where its status is a success, and otherwise the error that it
/// is. `parsed` is the body, where that is an error body.
pub fn read_ok(
    status: u16,
    retry_after: Option<String>,
    body: String,
    parsed: Option<ErrorResponse>,
) -> (r: Result<String, ApiError>)
    ensures
        match r {
            Ok(b) => 200 <= status < 300 && b@ == body@,
            Err(e) => {
                &&& !(200 <= status < 300)
                &&& e.status == status
                &&& e.retry_after == retry_of(opt_text(retry_after))
                &&& match parsed {
                    Some(p) => e.code@ == p.error@ && e.message@ == p.message@,
                    None => e.code@ == "http_"@ + decimal(status as nat) && e.message@ == prefix(
                        body@,
                        MESSAGE_CHARS as int,
                    ),
                }
            },
        },
{
    if 200 <= status && status < 300 {
        return Ok(body);
    }
    let wait = match &retry_after {
        Some(h) => scan::unsigned(h.as_str()),
        None => None,
    };
    Err(error_from(status, wait, body.as_str(), parsed))
}

/// A challenge that can be solved here: one of the known algorithm.
pub fn accept_challenge(ch: Challenge) -> (r: Result<Challenge, String>)
    ensures
        match r {
            Ok(c) => ch.algo@ == POW_ALGO@ && c == ch,
            Err(e) => ch.algo@ != POW_ALGO@ && e@ == "server wants unknown PoW algorithm "@
                + foreign::quoted(ch.algo@) + "; upgrade minsec-sync"@,
        },
{
    if text::same(ch.algo.as_str(), POW_ALGO) {
        Ok(ch)
    } else {
        let mut e = "server wants unknown PoW algorithm ".to_owned();
        let q = foreign::quote(ch.algo.as_str());
        e.append(q.as_str());
        e.append("; upgrade minsec-sync");
        Err(e)
    }
}

/// A request that did not get through.
pub fn transport_error(message: String) -> (r: ApiError)
    ensures
        r.status == 0,
        r.code@ == "transport"@,
        r.message@ == message@,
        r.retry_after is None,
{
    ApiError { status: 0, code: "transport".to_owned(), message, retry_after: None }
}

/// A reply whose body cannot be read.
pub fn bad_response(status: u16, message: String) -> (r: ApiError)
    ensures
        r.status == status,
        r.code@ == "bad_response"@,
        r.message@ == message@,
        r.retry_after is None,
{
    ApiError { status, code: "bad_response".to_owned(), message, retry_after: None }
}

/// The headers of a signed report.
pub struct SignedHeaders {
    pub host: String,
    pub timestamp: String,
    pub signature: String,
}

/// Signs the exact bytes of a report body.
pub fn sign_report(key: &SigningKey, host_id: &str, timestamp: i64, body: &[u8]) -> (r:
    SignedHeaders)
    ensures
        r.host@ == host_id@,
        r.timestamp@ == signed_decimal(timestamp as int),
        r.signature@ == foreign::base64(
            foreign::ed25519_signature(
                key.seed@,
                encode_utf8(canonical(host_id@, timestamp as int, foreign::sha256(body@))),
            ),
        ),
{
    let sig = sign::sign(key, host_id, timestamp, body);
    SignedHeaders {
        host: host_id.to_owned(),
        timestamp: sign::signed_text(timestamp),
        signature: foreign::base64_of(sig.as_slice()),
    }
}

/// The path of a feed, with the snapshot that a delta starts from.
pub open spec fn feed_path(tier: Seq<char>, family: Seq<char>, since: int) -> Seq<char> {
    "/v1/feed/"@ + tier + "/"@ + family + (if since > 0 {
        "?since="@ + signed_decimal(since)
    } else {
        Seq::empty()
    })
}

impl Api {
    pub fn new(server: &str) -> (r: Self)
        ensures
            r.server@ == without_slashes(server@),
    {
        let v = text::chars(server);
        let mut n: usize = v.len();
        assert(v@.take(n as int) =~= v@);
        while n > 0 && v[n - 1] == '/'
            invariant
                n <= v@.len(),
                without_slashes(v@) == without_slashes(v@.take(n as int)),
            decreases n,
        {
            assert(v@.take(n as int).drop_last() =~= v@.take(n - 1));
            n = n - 1;
        }
        let head = text::copied(&v, 0, n);
        assert(head@ =~= v@.take(n as int));
        Api { server: text::text(&head) }
    }

    pub fn url(&self, path: &str) -> (r: String)
        ensures
            r@ == self.server@ + path@,
    {
        let mut out = self.server.clone();
        out.append(path);
        out
    }

    pub fn feed_url(&self, tier: &str, family: &str, since: i64) -> (r: String)
        ensures
            r@ == self.server@ + feed_path(tier@, family@, since as int),
    {
        let mut path = "/v1/feed/".to_owned();
        path.append(tier);
        path.append("/");
        path.append(family);
        if since > 0 {
            path.append("?since=");
            let n = sign::signed_text(since);
            path.append(n.as_str());
        }
        assert(path@ =~= feed_path(tier@, family@, since as int));
        self.url(path.as_str())
    }
}

/// A reply to a feed request.
pub fn feed_reply(
    status: u16,
    etag: Option<String>,
    retry_after: Option<String>,
    body: String,
    parsed: Option<ErrorResponse>,
) -> (r: Result<FeedFetch, ApiError>)
    ensures
        match r {
            Ok(FeedFetch::NotModified) => status == 304,
            Ok(FeedFetch::Body { text, etag: e }) => 200 <= status < 300 && text@ == body@ && e@
                == (match etag {
                Some(t) => t@,
                None => Seq::empty(),
            }),
            Err(e) => {
                &&& status != 304
                &&& !(200 <= status < 300)
                &&& e.status == status
                &&& e.retry_after == retry_of(opt_text(retry_after))
                &&& match parsed {
                    Some(p) => e.code@ == p.error@ && e.message@ == p.message@,
                    None => e.code@ == "http_"@ + decimal(status as nat) && e.message@ == prefix(
                        body@,
                        MESSAGE_CHARS as int,
                    ),
                }
            },
        },
{
    if status == 304 {
        return Ok(FeedFetch::NotModified);
    }
    let etag = match etag {
        Some(t) => t,
        None => String::new(),
    };
    match read_ok(status, retry_after, body, parsed) {
        Ok(text) => Ok(FeedFetch::Body { text, etag }),
        Err(e) => Err(e),
    }
}

/// Slashes at the end of the server's address do not count, however many; nothing else
/// is taken away.
pub proof fn law_trailing_slashes(s: Seq<char>, slashes: Seq<char>)
    requires
        s.len() > 0 ==> s.last() != '/',
        forall|i: int| 0 <= i < slashes.len() ==> #[trigger] slashes[i] == '/',
    ensures
        without_slashes(s + slashes) == s,
    decreases slashes.len(),
{
    let all = s + slashes;
    if slashes.len() > 0 {
        let less = slashes.drop_last();
        assert(slashes[slashes.len() - 1] == '/');
        assert(all.last() == '/');
        assert(all.drop_last() =~= s + less);
        assert forall|i: int| 0 <= i < less.len() implies #[trigger] less[i] == '/' by {
            assert(less[i] == slashes[i]);
        }
        law_trailing_slashes(s, less);
    } else {
        assert(all =~= s);
    }
}

/// A feed is asked for by its tier and family, and from a snapshot on where there is one.
pub proof fn law_feed_paths(tier: Seq<char>, family: Seq<char>, n: nat)
    ensures
        feed_path(tier, family, 0) == "/v1/feed/"@ + tier + "/"@ + family,
        feed_path(tier, family, -(n as int)) == "/v1/feed/"@ + tier + "/"@ + family,
        n > 0 ==> feed_path(tier, family, n as int) == "/v1/feed/"@ + tier + "/"@ + family
            + "?since="@ + decimal(n),
{
    let base = "/v1/feed/"@ + tier + "/"@ + family;
    assert(base + Seq::<char>::empty() =~= base);
    if n > 0 {
        assert(base + ("?since="@ + decimal(n)) =~= base + "?since="@ + decimal(n));
    }
}

/// How an error reads, in full; how long to wait is read as a decimal number.
pub proof fn law_errors_read(
    status: u16,
    code: Seq<char>,
    message: Seq<char>,
    n: nat,
    body: Seq<char>,
)
    ensures
        ({
            let head = "server said "@ + code + " ("@ + decimal(status as nat) + ")"@;
            &&& error_text(status, code, Seq::empty(), None) == head
            &&& message.len() > 0 ==> error_text(status, code, message, None) == head + ": "@
                + message
            &&& n <= u64::MAX ==> error_text(status, code, Seq::empty(), Some(n as u64)) == head
                + " [retry after "@ + decimal(n) + "s]"@
            &&& message.len() > 0 && n <= u64::MAX ==> error_text(
                status,
                code,
                message,
                Some(n as u64),
            ) == head + ": "@ + message + " [retry after "@ + decimal(n) + "s]"@
        }),
        n <= u64::MAX ==> retry_of(Some(decimal(n))) == Some(n as u64),
        n > u64::MAX ==> retry_of(Some(decimal(n))) is None,
        retry_of(None) is None,
        retry_of(Some(body)) == (match scan::number(body, false) {
            Some(k) if k <= u64::MAX => Some(k as u64),
            _ => None,
        }),
        body.len() <= 200 ==> prefix(body, 200) == body,
        body.len() > 200 ==> prefix(body, 200) == body.take(200),
        MESSAGE_CHARS == 200,
{
    let head = "server said "@ + code + " ("@ + decimal(status as nat) + ")"@;
    let e = Seq::<char>::empty();
    assert(error_text(status, code, e, None) =~= head);
    if message.len() > 0 {
        assert(error_text(status, code, message, None) =~= head + ": "@ + message);
    }
    if n <= u64::MAX {
        assert(error_text(status, code, e, Some(n as u64)) =~= head + " [retry after "@ + decimal(n)
            + "s]"@);
        if message.len() > 0 {
            assert(error_text(status, code, message, Some(n as u64)) =~= head + ": "@ + message
                + " [retry after "@ + decimal(n) + "s]"@);
        }
    }
    scan::law_numbers_are_read(n, false, e);
}

} // verus!
