use vstd::prelude::*;

use crate::challenge::{challenge_answer, is_hex_digest_text, ChallengeResponse};
use crate::config::LighthouseConfig;
use crate::messages::{NodeMetricsPushRequest, NodePullRequest, NodePullResponse};
use crate::metrics::LighthouseMetrics;
use crate::state::{pull_outcome, LighthouseState};
use crate::validation::Validated;

verus! {

/// How a request to the lighthouse fails, and the HTTP status each failure maps to.
#[derive(Debug, Clone, Copy, PartialEq, Eq)]
pub enum LighthouseResponseError {
    /// The shared lighthouse key is absent or wrong (401).
    InvalidLighthouseKey,
    /// No challenge came with the request (401).
    InvalidNodeKey,
    /// The request body failed validation (400).
    BadRequestBody,
    /// The response body failed validation (500).
    BadResponseBody,
    /// The transaction failed, for instance when the snapshot could not be written (500).
    InternalError,
}

pub open spec fn status_of(e: LighthouseResponseError) -> u16 {
    match e {
        LighthouseResponseError::InvalidLighthouseKey => 401,
        LighthouseResponseError::InvalidNodeKey => 401,
        LighthouseResponseError::BadRequestBody => 400,
        LighthouseResponseError::BadResponseBody => 500,
        LighthouseResponseError::InternalError => 500,
    }
}

impl LighthouseResponseError {
    /// The HTTP status code of the failure.
    pub fn status_code(&self) -> (r: u16)
        ensures
            r == status_of(*self),
    {
        match self {
            LighthouseResponseError::InvalidLighthouseKey => 401,
            LighthouseResponseError::InvalidNodeKey => 401,
            LighthouseResponseError::BadRequestBody => 400,
            LighthouseResponseError::BadResponseBody => 500,
            LighthouseResponseError::InternalError => 500,
        }
    }

    /// The text of the failure, sent as the response body.
    pub fn message(&self) -> (r: &'static str)
        ensures
            r@ == message_of(*self),
    {
        match self {
            LighthouseResponseError::InvalidLighthouseKey => "Invalid lighthouse key in request!",
            LighthouseResponseError::InvalidNodeKey => "Invalid node key in request!",
            LighthouseResponseError::BadRequestBody => "Request body is invalid!",
            LighthouseResponseError::BadResponseBody => "Response body is invalid!",
            LighthouseResponseError::InternalError => "Internal error in lighthouse context!",
        }
    }
}

/// The body text of each failure.
pub open spec fn message_of(e: LighthouseResponseError) -> Seq<char> {
    match e {
        LighthouseResponseError::InvalidLighthouseKey => "Invalid lighthouse key in request!"@,
        LighthouseResponseError::InvalidNodeKey => "Invalid node key in request!"@,
        LighthouseResponseError::BadRequestBody => "Request body is invalid!"@,
        LighthouseResponseError::BadResponseBody => "Response body is invalid!"@,
        LighthouseResponseError::InternalError => "Internal error in lighthouse context!"@,
    }
}

/// What authentication of a request with the given headers yields.
pub open spec fn auth_result(
    lighthouse_key: Seq<char>,
    node_key: Seq<char>,
    received_key: Option<Seq<char>>,
    challenge: Option<Seq<char>>,
) -> Result<Seq<char>, LighthouseResponseError> {
    if received_key is None || received_key->0 != lighthouse_key {
        Err(LighthouseResponseError::InvalidLighthouseKey)
    } else if challenge is None {
        Err(LighthouseResponseError::InvalidNodeKey)
    } else {
        Ok(challenge_answer(node_key, challenge->0))
    }
}

pub open spec fn opt_view(o: Option<&str>) -> Option<Seq<char>> {
    match o {
        Some(s) => Some(s@),
        None => None,
    }
}

pub open spec fn result_view(r: Result<String, LighthouseResponseError>) -> Result<
    Seq<char>,
    LighthouseResponseError,
> {
    match r {
        Ok(s) => Ok(s@),
        Err(e) => Err(e),
    }
}

/// Whether `key` is the configured lighthouse key.
pub fn verify_lighthouse_key(config: &LighthouseConfig, key: &str) -> (r: bool)
    ensures
        r == (key@ == config.lighthouse_key@),
{
    let k = key.to_owned();
    k == config.lighthouse_key
}

/// The answer to a node's challenge, proving that this lighthouse holds the node key.
pub fn get_node_challenge_response(config: &LighthouseConfig, challenge: &str) -> (r: String)
    ensures
        r@ == challenge_answer(config.node_key@, challenge@),
        is_hex_digest_text(r@),
{
    ChallengeResponse::with_challenge(config.node_key.clone(), challenge).response()
}

/// Checks the two authentication headers of a request: the lighthouse key must match, and a
/// challenge must be present; the result is the answer to that challenge.
pub fn authenticate(
    config: &LighthouseConfig,
    lighthouse_key: Option<&str>,
    challenge: Option<&str>,
) -> (r: Result<String, LighthouseResponseError>)
    ensures
        result_view(r) == auth_result(
            config.lighthouse_key@,
            config.node_key@,
            opt_view(lighthouse_key),
            opt_view(challenge),
        ),
        r is Ok ==> is_hex_digest_text(r->Ok_0@),
{
    match lighthouse_key {
        Some(key) => {
            if !verify_lighthouse_key(config, key) {
                return Err(LighthouseResponseError::InvalidLighthouseKey);
            }
        },
        None => {
            return Err(LighthouseResponseError::InvalidLighthouseKey);
        },
    }
    match challenge {
        Some(c) => Ok(get_node_challenge_response(config, c)),
        None => Err(LighthouseResponseError::InvalidNodeKey),
    }
}

/// What the pull endpoint does: a request that fails authentication gets that failure, one
/// with an invalid body gets `BadRequestBody`, both with the state unchanged; any other runs
/// the pull transaction and is answered with its response and the challenge answer, or with
/// `BadResponseBody` where that response fails validation.
pub open spec fn pull_handled(
    old: LighthouseState,
    config: LighthouseConfig,
    lighthouse_key: Option<Seq<char>>,
    challenge: Option<Seq<char>>,
    request: NodePullRequest,
    now: u64,
    local_hour: u32,
    new: LighthouseState,
    r: Result<(NodePullResponse, String), LighthouseResponseError>,
) -> bool {
    let auth = auth_result(config.lighthouse_key@, config.node_key@, lighthouse_key, challenge);
    if auth is Err {
        r == Err::<(NodePullResponse, String), _>(auth->Err_0) && new == old
    } else if request.check() is Err {
        r == Err::<(NodePullResponse, String), _>(LighthouseResponseError::BadRequestBody) && new
            == old
    } else {
        match r {
            Ok((resp, answer)) => {
                &&& pull_outcome(old, config, request, now, local_hour, new, resp)
                &&& resp.check() is Ok
                &&& answer@ == auth->Ok_0
            },
            Err(e) => {
                &&& e == LighthouseResponseError::BadResponseBody
                &&& exists|resp: NodePullResponse|
                    pull_outcome(old, config, request, now, local_hour, new, resp)
                        && #[trigger] resp.check() is Err
            },
        }
    }
}

/// Auth closure: the pull endpoint answers 401 exactly when the lighthouse key is absent or
/// wrong or the challenge is missing, and such a refusal leaves the state as it was.
pub proof fn lemma_auth_closure(
    old: LighthouseState,
    config: LighthouseConfig,
    lighthouse_key: Option<Seq<char>>,
    challenge: Option<Seq<char>>,
    request: NodePullRequest,
    now: u64,
    local_hour: u32,
    new: LighthouseState,
    r: Result<(NodePullResponse, String), LighthouseResponseError>,
)
    requires
        pull_handled(old, config, lighthouse_key, challenge, request, now, local_hour, new, r),
    ensures
        (r is Err && status_of(r->Err_0) == 401) <==> (lighthouse_key is None || lighthouse_key->0
            != config.lighthouse_key@ || challenge is None),
        (lighthouse_key is None || lighthouse_key->0 != config.lighthouse_key@ || challenge is None)
            ==> new == old,
{
}

/// The pull endpoint: authenticate, validate the request, run the pull transaction and
/// validate its response. On success it returns the response and the challenge answer.
/// A request that fails authentication or validation leaves the state as it was.
pub fn handle_pull(
    state: &mut LighthouseState,
    config: &LighthouseConfig,
    lighthouse_key: Option<&str>,
    challenge: Option<&str>,
    request: &NodePullRequest,
    now: u64,
    local_hour: u32,
) -> (r: Result<(NodePullResponse, String), LighthouseResponseError>)
    requires
        old(state).wf(),
    ensures
        final(state).wf(),
        pull_handled(
            *old(state),
            *config,
            opt_view(lighthouse_key),
            opt_view(challenge),
            *request,
            now,
            local_hour,
            *final(state),
            r,
        ),
        match r {
            Ok((_, answer)) => is_hex_digest_text(answer@),
            Err(_) => true,
        },
{
    let answer = match authenticate(config, lighthouse_key, challenge) {
        Ok(a) => a,
        Err(e) => {
            return Err(e);
        },
    };
    if request.validate().is_err() {
        return Err(LighthouseResponseError::BadRequestBody);
    }
    let response = state.node_pull(config, request, now, local_hour);
    if response.validate().is_err() {
        return Err(LighthouseResponseError::BadResponseBody);
    }
    Ok((response, answer))
}

/// The metrics endpoint: authenticate, validate the request and store its metrics.
/// A request that fails authentication or validation leaves the metrics as they were.
pub fn handle_metrics_push(
    metrics: &mut LighthouseMetrics,
    config: &LighthouseConfig,
    lighthouse_key: Option<&str>,
    challenge: Option<&str>,
    request: &NodeMetricsPushRequest,
) -> (r: Result<String, LighthouseResponseError>)
    requires
        old(metrics).wf(),
    ensures
        final(metrics).wf(),
        ({
            let auth = auth_result(
                config.lighthouse_key@,
                config.node_key@,
                opt_view(lighthouse_key),
                opt_view(challenge),
            );
            if auth is Err {
                r == Err::<String, _>(auth->Err_0) && *final(metrics) == *old(metrics)
            } else if request.check() is Err {
                r == Err::<String, _>(LighthouseResponseError::BadRequestBody) && *final(metrics)
                    == *old(metrics)
            } else {
                &&& r is Ok
                &&& r->Ok_0@ == auth->Ok_0
                &&& is_hex_digest_text(r->Ok_0@)
                &&& final(metrics)@ == old(metrics)@.insert(request.hostname@, request.collected())
            }
        }),
{
    let answer = match authenticate(config, lighthouse_key, challenge) {
        Ok(a) => a,
        Err(e) => {
            return Err(e);
        },
    };
    if request.validate().is_err() {
        return Err(LighthouseResponseError::BadRequestBody);
    }
    metrics.upsert_metrics(request);
    Ok(answer)
}

} // verus!
