//! Which candidates are fit for the output, and what the report says of each.

use crate::candidate::{text_view, Candidate, CandidateView};
use crate::config::AppConfig;
use crate::ipv4::is_public_ipv4;
use crate::node::{endpoint_of, first_udp4_endpoint};
use crate::text::{decimal, decimal_text};
use vstd::prelude::*;
use vstd::string::*;

verus! {

/// Whether a candidate is fit for the output, and why.
#[derive(Debug)]
pub struct InclusionDecision {
    pub included: bool,
    pub reason: String,
}

/// What an `InclusionDecision` holds.
pub struct DecisionView {
    pub included: bool,
    pub reason: Seq<char>,
}

impl View for InclusionDecision {
    type V = DecisionView;

    open spec fn view(&self) -> DecisionView {
        DecisionView { included: self.included, reason: self.reason@ }
    }
}

/// The addresses of a candidate are past their time.
pub open spec fn expired(candidate: CandidateView, now: u64) -> bool {
    0 < candidate.node.addr_list.expire_at <= now
}

/// A candidate has answered often enough, or is a seed node that need not have.
pub open spec fn proven(candidate: CandidateView, config: AppConfig) -> bool {
    candidate.success_count >= config.min_successes || (config.include_seed_nodes
        && candidate.seed)
}

/// A candidate is fit for the output.
pub open spec fn fit(candidate: CandidateView, config: AppConfig, now: u64) -> bool {
    let endpoint = endpoint_of(candidate.node.addr_list.addrs);
    &&& endpoint is Some
    &&& !expired(candidate, now)
    &&& config.allow_private_ips || endpoint->0.ip.public()
    &&& proven(candidate, config)
}

/// Why a candidate is fit, or the first reason for which it is not.
pub open spec fn reason_for(candidate: CandidateView, config: AppConfig, now: u64) -> Seq<char> {
    match endpoint_of(candidate.node.addr_list.addrs) {
        None => "no IPv4 UDP address"@,
        Some(endpoint) => if expired(candidate, now) {
            "expired address list expire_at="@ + decimal(
                candidate.node.addr_list.expire_at as nat,
            )
        } else if !config.allow_private_ips && !endpoint.ip.public() {
            "non-public IPv4 address "@ + endpoint.ip.dotted()
        } else if !proven(candidate, config) {
            "success_count "@ + decimal(candidate.success_count as nat)
                + " is below min_successes "@ + decimal(config.min_successes as nat)
        } else {
            "included"@
        },
    }
}

/// The decision on a candidate.
pub open spec fn decision_on(
    candidate: CandidateView,
    config: AppConfig,
    now: u64,
) -> DecisionView {
    DecisionView {
        included: fit(candidate, config, now),
        reason: reason_for(candidate, config, now),
    }
}

/// Decides whether a candidate is fit for the output.
pub fn inclusion_decision(candidate: &Candidate, config: &AppConfig, now: u64) -> (r:
    InclusionDecision)
    ensures
        r@ == decision_on(candidate@, *config, now),
{
    let endpoint = match first_udp4_endpoint(&candidate.node) {
        Some(endpoint) => endpoint,
        None => {
            return InclusionDecision {
                included: false,
                reason: "no IPv4 UDP address".to_owned(),
            };
        },
    };
    let expire_at: i32 = candidate.node.addr_list.expire_at;
    if expire_at > 0 && expire_at as u64 <= now {
        let mut reason = "expired address list expire_at=".to_owned();
        reason.append(decimal_text(expire_at as u64).as_str());
        return InclusionDecision { included: false, reason };
    }
    if !config.allow_private_ips && !is_public_ipv4(endpoint.ip) {
        let mut reason = "non-public IPv4 address ".to_owned();
        reason.append(endpoint.ip.to_text().as_str());
        return InclusionDecision { included: false, reason };
    }
    if candidate.success_count < config.min_successes && !(config.include_seed_nodes
        && candidate.seed) {
        let mut reason = "success_count ".to_owned();
        reason.append(decimal_text(candidate.success_count as u64).as_str());
        reason.append(" is below min_successes ");
        reason.append(decimal_text(config.min_successes as u64).as_str());
        return InclusionDecision { included: false, reason };
    }
    InclusionDecision { included: true, reason: "included".to_owned() }
}

/// The reason is the word `included` exactly for the candidates that are fit.
pub proof fn law_reason_tells_the_decision(candidate: CandidateView, config: AppConfig, now: u64)
    ensures
        decision_on(candidate, config, now).included <==> decision_on(
            candidate,
            config,
            now,
        ).reason == "included"@,
{
    reveal_strlit("included");
    reveal_strlit("no IPv4 UDP address");
    reveal_strlit("expired address list expire_at=");
    reveal_strlit("non-public IPv4 address ");
    reveal_strlit("success_count ");
    reveal_strlit(" is below min_successes ");
    let reason = reason_for(candidate, config, now);
    assert("included"@[0] == 'i');
    if !fit(candidate, config, now) {
        assert(reason[0] != 'i');
    }
}

/// With settings that force no seed nodes, allow no private addresses and want a success, what
/// is fit is a peer that was reached, at a public IPv4 address, whose addresses have not expired.
pub proof fn law_default_policy_wants_reachable_public_peers(
    candidate: CandidateView,
    config: AppConfig,
    now: u64,
)
    requires
        !config.include_seed_nodes,
        !config.allow_private_ips,
        config.min_successes >= 1,
        fit(candidate, config, now),
    ensures
        candidate.success_count >= 1,
        endpoint_of(candidate.node.addr_list.addrs) is Some,
        endpoint_of(candidate.node.addr_list.addrs)->0.ip.public(),
        candidate.node.addr_list.expire_at > 0 ==> candidate.node.addr_list.expire_at > now,
{
}

/// What makes a candidate fit, check by check: it has an endpoint, its addresses have no end or
/// one that is yet to come, the endpoint is public where that is wanted, and it has answered often
/// enough, unless it is a seed node and these are forced.
pub proof fn law_fit_candidates_pass_every_check(
    candidate: CandidateView,
    config: AppConfig,
    now: u64,
)
    ensures
        ({
            let endpoint = endpoint_of(candidate.node.addr_list.addrs);
            let expire_at = candidate.node.addr_list.expire_at;
            let forced = config.include_seed_nodes && candidate.seed;
            let included = decision_on(candidate, config, now).included;
            &&& included ==> endpoint is Some
            &&& included && expire_at > 0 ==> expire_at > now
            &&& included && !config.allow_private_ips ==> endpoint->0.ip.public()
            &&& included && !forced ==> candidate.success_count >= config.min_successes
            &&& endpoint is Some && (expire_at <= 0 || now < expire_at) && (
            config.allow_private_ips || endpoint->0.ip.public()) && (forced
                || config.min_successes <= candidate.success_count) ==> included
        }),
{
}

/// Forcing the seed nodes makes a difference only to a seed node that has not answered often
/// enough, and to that one just where it would be fit with no successes wanted.
pub proof fn law_forcing_seeds_lifts_only_the_successes(
    candidate: CandidateView,
    plain: AppConfig,
    forcing: AppConfig,
    lenient: AppConfig,
    now: u64,
)
    requires
        !plain.include_seed_nodes,
        forcing.include_seed_nodes,
        !lenient.include_seed_nodes,
        lenient.min_successes == 0,
        plain.min_successes == forcing.min_successes,
        plain.allow_private_ips == forcing.allow_private_ips,
        plain.allow_private_ips == lenient.allow_private_ips,
    ensures
        fit(candidate, plain, now) ==> fit(candidate, forcing, now),
        fit(candidate, forcing, now) ==> fit(candidate, lenient, now),
        fit(candidate, forcing, now) != fit(candidate, plain, now) <==> {
            &&& candidate.seed
            &&& candidate.success_count < plain.min_successes
            &&& fit(candidate, lenient, now)
        },
{
}

/// Allowing private addresses makes a difference only to a candidate whose address is not public;
/// the time only to one whose addresses have an end; and one more success takes away nothing.
pub proof fn law_each_setting_lifts_its_own_check(
    candidate: CandidateView,
    better: CandidateView,
    config: AppConfig,
    allowing: AppConfig,
    now: u64,
    later: u64,
)
    requires
        !config.allow_private_ips,
        allowing.allow_private_ips,
        config.include_seed_nodes == allowing.include_seed_nodes,
        config.min_successes == allowing.min_successes,
        now <= later,
        better == (CandidateView { success_count: better.success_count, ..candidate }),
        better.success_count >= candidate.success_count,
    ensures
        fit(candidate, config, now) <==> {
            &&& fit(candidate, allowing, now)
            &&& endpoint_of(candidate.node.addr_list.addrs)->0.ip.public()
        },
        fit(candidate, config, later) ==> fit(candidate, config, now),
        fit(candidate, config, later) != fit(candidate, config, now) ==> {
            &&& candidate.node.addr_list.expire_at > now
            &&& candidate.node.addr_list.expire_at <= later
        },
        fit(candidate, config, now) ==> fit(better, config, now),
{
}

/// The reason names the first check that a candidate does not pass, with what it has and what was
/// wanted: the address, the end of its addresses, the range of the address, the successes.
pub proof fn law_reason_names_the_first_failed_check(
    candidate: CandidateView,
    config: AppConfig,
    now: u64,
)
    ensures
        ({
            let endpoint = endpoint_of(candidate.node.addr_list.addrs);
            let expire_at = candidate.node.addr_list.expire_at;
            let over = expire_at > 0 && expire_at <= now;
            let hidden = !config.allow_private_ips && !endpoint->0.ip.public();
            let reason = decision_on(candidate, config, now).reason;
            &&& endpoint is None ==> reason == "no IPv4 UDP address"@
            &&& endpoint is Some && over ==> reason == "expired address list expire_at="@
                + decimal(expire_at as nat)
            &&& endpoint is Some && !over && hidden ==> reason == "non-public IPv4 address "@
                + endpoint->0.ip.dotted()
            &&& endpoint is Some && !over && !hidden && !fit(candidate, config, now) ==> reason
                == "success_count "@ + decimal(candidate.success_count as nat)
                + " is below min_successes "@ + decimal(config.min_successes as nat)
        }),
{
}

/// What the report says of a candidate.
#[derive(Debug)]
pub struct ReportNode {
    pub key_id: String,
    pub public_key: String,
    pub ip: Option<String>,
    pub port: Option<i32>,
    pub seed: bool,
    pub included: bool,
    pub reason: String,
    pub seen_count: u32,
    pub success_count: u32,
    pub first_seen_at: u64,
    pub last_seen_at: u64,
    pub version: i32,
    pub expire_at: i32,
    pub last_error: Option<String>,
}

/// What a `ReportNode` holds.
pub struct ReportNodeView {
    pub key_id: Seq<char>,
    pub public_key: Seq<char>,
    pub ip: Option<Seq<char>>,
    pub port: Option<i32>,
    pub seed: bool,
    pub included: bool,
    pub reason: Seq<char>,
    pub seen_count: u32,
    pub success_count: u32,
    pub first_seen_at: u64,
    pub last_seen_at: u64,
    pub version: i32,
    pub expire_at: i32,
    pub last_error: Option<Seq<char>>,
}

impl View for ReportNode {
    type V = ReportNodeView;

    open spec fn view(&self) -> ReportNodeView {
        ReportNodeView {
            key_id: self.key_id@,
            public_key: self.public_key@,
            ip: text_view(self.ip),
            port: self.port,
            seed: self.seed,
            included: self.included,
            reason: self.reason@,
            seen_count: self.seen_count,
            success_count: self.success_count,
            first_seen_at: self.first_seen_at,
            last_seen_at: self.last_seen_at,
            version: self.version,
            expire_at: self.expire_at,
            last_error: text_view(self.last_error),
        }
    }
}

/// What the report says of a candidate on which this was decided.
pub open spec fn report_on(candidate: CandidateView, decision: DecisionView) -> ReportNodeView {
    let endpoint = endpoint_of(candidate.node.addr_list.addrs);
    ReportNodeView {
        key_id: candidate.key_id,
        public_key: candidate.public_key,
        ip: match endpoint {
            Some(endpoint) => Some(endpoint.ip.dotted()),
            None => None,
        },
        port: match endpoint {
            Some(endpoint) => Some(endpoint.port),
            None => None,
        },
        seed: candidate.seed,
        included: decision.included,
        reason: decision.reason,
        seen_count: candidate.seen_count,
        success_count: candidate.success_count,
        first_seen_at: candidate.first_seen_at,
        last_seen_at: candidate.last_seen_at,
        version: candidate.node.version,
        expire_at: candidate.node.addr_list.expire_at,
        last_error: candidate.last_error,
    }
}

/// What the report says of a candidate on which this was decided.
pub fn candidate_report(candidate: &Candidate, decision: InclusionDecision) -> (r: ReportNode)
    ensures
        r@ == report_on(candidate@, decision@),
{
    let (ip, port): (Option<String>, Option<i32>) = match first_udp4_endpoint(&candidate.node) {
        Some(endpoint) => (Some(endpoint.ip.to_text()), Some(endpoint.port)),
        None => (None, None),
    };
    let last_error: Option<String> = match &candidate.last_error {
        Some(error) => Some(error.clone()),
        None => None,
    };
    ReportNode {
        key_id: candidate.key_id.clone(),
        public_key: candidate.public_key.clone(),
        ip,
        port,
        seed: candidate.seed,
        included: decision.included,
        reason: decision.reason,
        seen_count: candidate.seen_count,
        success_count: candidate.success_count,
        first_seen_at: candidate.first_seen_at,
        last_seen_at: candidate.last_seen_at,
        version: candidate.node.version,
        expire_at: candidate.node.addr_list.expire_at,
        last_error,
    }
}

/// What the report says of a candidate is what is known of it, field by field, its endpoint in
/// text, and what was decided.
pub proof fn law_report_repeats_the_candidate(candidate: CandidateView, decision: DecisionView)
    ensures
        ({
            let entry = report_on(candidate, decision);
            let endpoint = endpoint_of(candidate.node.addr_list.addrs);
            &&& entry.key_id == candidate.key_id
            &&& entry.public_key == candidate.public_key
            &&& entry.seed == candidate.seed
            &&& entry.seen_count == candidate.seen_count
            &&& entry.success_count == candidate.success_count
            &&& entry.first_seen_at == candidate.first_seen_at
            &&& entry.last_seen_at == candidate.last_seen_at
            &&& entry.version == candidate.node.version
            &&& entry.expire_at == candidate.node.addr_list.expire_at
            &&& entry.last_error == candidate.last_error
            &&& entry.included == decision.included
            &&& entry.reason == decision.reason
            &&& entry.ip is Some <==> endpoint is Some
            &&& entry.port is Some <==> endpoint is Some
            &&& endpoint is Some ==> entry.port->0 == endpoint->0.port && entry.ip->0
                == endpoint->0.ip.dotted()
        }),
{
}

} // verus!
