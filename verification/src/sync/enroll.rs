//! Enrollment: one attempt with the key at hand, and a second with a new one where the
//! server knows the key but the host_id is gone (lost state file).

use vstd::prelude::*;

use crate::foreign;
use crate::proto::pow;
use crate::proto::sign::SigningKey;
use crate::proto::types::{Challenge, EnrollRequest, EnrollResponse};
use crate::sync::client::ApiError;
use crate::sync::report::AGENT_VERSION;
use crate::sync::state::State;
use crate::text;
use crate::text::decimal;

verus! {

/// The server's code for a key that it already knows.
pub const ALREADY_ENROLLED: &'static str = "already_enrolled";

/// What is said when a second attempt ends like the first.
pub const GAVE_UP: &'static str = "enrollment failed after key rotation";

/// The public key of a signing key, in base64.
pub fn key_text(key: &SigningKey) -> (r: String)
    ensures
        r@ == foreign::base64(foreign::ed25519_public(key.seed@)),
{
    let public = key.verifying_key();
    foreign::base64_of(public.bytes.as_slice())
}

/// The request that answers a challenge with `nonce`.
pub fn enroll_request(ch: &Challenge, nonce: String, key: &SigningKey) -> (r: EnrollRequest)
    ensures
        r.challenge@ == ch.challenge@,
        r.pow_nonce@ == nonce@,
        r.pubkey@ == foreign::base64(foreign::ed25519_public(key.seed@)),
        r.agent_version@ == AGENT_VERSION@,
        r.install_token is None,
{
    EnrollRequest {
        challenge: ch.challenge.clone(),
        pow_nonce: nonce,
        pubkey: key_text(key),
        agent_version: AGENT_VERSION.to_owned(),
        install_token: None,
    }
}

/// Solves a challenge and answers it; `None` if it has no solution.
pub fn answer(ch: &Challenge, key: &SigningKey) -> (r: Option<EnrollRequest>)
    ensures
        match r {
            Some(q) => {
                &&& q.challenge@ == ch.challenge@
                &&& pow::is_smallest(ch.challenge@, q.pow_nonce@, ch.difficulty)
                &&& q.pubkey@ == foreign::base64(foreign::ed25519_public(key.seed@))
                &&& q.agent_version@ == AGENT_VERSION@
                &&& q.install_token is None
            },
            None => forall|j: u64|
                !pow::answers(ch.challenge@, #[trigger] decimal(j as nat), ch.difficulty),
        },
{
    match pow::solve(ch.challenge.as_str(), ch.difficulty) {
        Some(nonce) => Some(enroll_request(ch, nonce, key)),
        None => None,
    }
}

/// What to do after a failed attempt.
#[derive(Debug, Clone)]
pub enum Next {
    /// Start over with a fresh key.
    NewKey,
    Fail,
}

/// What to do after attempt number `attempt` failed with `e`: a key that the server
/// knows is replaced once.
pub fn after_failure(e: &ApiError, attempt: u32) -> (r: Next)
    ensures
        (r is NewKey) == (e.code@ == ALREADY_ENROLLED@ && attempt == 0),
{
    if attempt == 0 && text::same(e.code.as_str(), ALREADY_ENROLLED) {
        Next::NewKey
    } else {
        Next::Fail
    }
}

/// Remembers an enrollment.
pub fn enrolled(state: &mut State, resp: &EnrollResponse)
    requires
        old(state).wf(),
    ensures
        final(state).wf(),
        final(state).host_id matches Some(id) && id@ == resp.host_id@,
        final(state).min_report_interval == resp.min_report_interval,
        final(state).next_seq == old(state).next_seq,
        final(state).cursor == old(state).cursor,
        final(state).feeds == old(state).feeds,
        final(state).last_pull_ok == old(state).last_pull_ok,
{
    state.host_id = Some(resp.host_id.clone());
    state.min_report_interval = resp.min_report_interval;
}

/// What the server calls a key that it knows, and what is said in the end.
pub proof fn law_enrollment_words()
    ensures
        ALREADY_ENROLLED@ == "already_enrolled"@,
        GAVE_UP@ == "enrollment failed after key rotation"@,
{
}

} // verus!
