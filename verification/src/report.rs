//! The outcome of a build: the configuration that is written, and the report on it.

use crate::candidate::{ascending, lemma_by_key_at, CandidateTable, CandidateView, NodeRecordView};
use crate::config::AppConfig;
use crate::crawl::{
    begins_with, crawl_wf, has_answered, is_course, is_source, keys_identify,
    law_candidates_come_from_records, law_public_keys_are_distinct,
    law_rejected_seed_is_no_candidate, law_success_means_an_answer, network_told, told_by,
    was_accepted, CrawlEvent, CrawlView,
};
use crate::decision::{
    candidate_report, decision_on, fit, inclusion_decision,
    law_default_policy_wants_reachable_public_peers, law_reason_tells_the_decision, report_on,
    DecisionView, ReportNode, ReportNodeView,
};
use crate::error::{BuildError, ErrorView};
use crate::json::{json_view, json_views, Json};
use crate::node::{endpoint_of, law_endpoint_needs_udp};
use crate::output::{
    dht_node_to_json, law_replacement_keeps_all_else, law_replacement_needs_the_objects,
    law_replacement_sets_nodes, node_json, object_member, same_member, set_output_dht_nodes,
    typed_dht, typed_static_nodes, with_nodes,
};
use crate::path::{as_path, buf_bytes, show, shown_path};
use crate::select::{
    admit_within_limit, admitted, all_places, arrange, arranged, keep_at_most,
    law_seed_limit_takes_the_worst, law_selected_are_fit, law_selection_is_no_larger,
    lemma_arrangement_exists, lemma_precedes_is_no_worse, lemma_selection, no_worse, place_order,
    places_of, select_output, selected, valid_places, NodeOrder,
};
use crate::text::{law_text_order_is_strict, same_text, text_before};
use vstd::prelude::*;
use vstd::string::*;

verus! {

/// The report on a build.
#[derive(Debug)]
pub struct BuildReport {
    pub schema_version: u32,
    pub generated_at: u64,
    pub seed_global_config_path: String,
    pub output_global_config_path: String,
    pub seed_nodes: usize,
    pub discovered_nodes: usize,
    pub included_nodes: usize,
    pub excluded_nodes: usize,
    pub summary: BuildSummary,
    pub nodes: Vec<ReportNode>,
}

/// The settings that the report repeats.
#[derive(Clone, Copy, Debug, PartialEq, Eq, Structural)]
pub struct BuildSummary {
    pub crawl_rounds: usize,
    pub min_successes: u32,
    pub include_seed_nodes: bool,
    pub allow_private_ips: bool,
    pub max_output_nodes: usize,
}

/// What a build makes.
#[derive(Debug)]
pub struct BuildOutput {
    pub config: serde_json::Value,
    pub report: BuildReport,
}

/// One of the candidates at these places has the key `key`.
pub open spec fn has_key(list: Seq<CandidateView>, places: Seq<usize>, key: Seq<char>) -> bool {
    exists|k: int|
        0 <= k < places.len() && (#[trigger] list[places[k] as int]).public_key == key
}

/// What became of the candidate at `i`: whether it is in the output, and why. Of one that is fit
/// and yet not in the output, the reason is the limit that it fell to.
pub open spec fn final_decision(
    list: Seq<CandidateView>,
    config: AppConfig,
    now: u64,
    i: int,
) -> DecisionView {
    let decision = decision_on(list[i], config, now);
    let included = has_key(list, selected(list, config, now), list[i].public_key);
    DecisionView {
        included,
        reason: if included || !decision.included {
            decision.reason
        } else if admitted(list, config, now).contains(i as usize) {
            "excluded by max_output_nodes limit"@
        } else {
            "excluded by max_seed_nodes_in_output limit"@
        },
    }
}

/// The entry of the report on the candidate at `i`.
pub open spec fn report_entry(
    list: Seq<CandidateView>,
    config: AppConfig,
    now: u64,
    i: int,
) -> ReportNodeView {
    report_on(list[i], final_decision(list, config, now, i))
}

/// The places of the candidates in the order of the report: by key.
pub open spec fn report_order(list: Seq<CandidateView>) -> Seq<usize> {
    arranged(NodeOrder::PublicKey, list, all_places(list))
}

/// The entries of the report: one on each candidate, by key.
pub open spec fn report_entries(
    list: Seq<CandidateView>,
    config: AppConfig,
    now: u64,
) -> Seq<ReportNodeView> {
    report_order(list).map_values(|i: usize| report_entry(list, config, now, i as int))
}

/// What the entries of a report hold.
pub open spec fn entry_views(entries: Seq<ReportNode>) -> Seq<ReportNodeView> {
    entries.map_values(|entry: ReportNode| entry@)
}

/// The nodes of the output in JSON, best first.
pub open spec fn output_json(
    list: Seq<CandidateView>,
    config: AppConfig,
    now: u64,
) -> Seq<Json> {
    selected(list, config, now).map_values(|i: usize| candidate_json(list[i as int]))
}

/// A candidate in JSON.
pub open spec fn candidate_json(candidate: CandidateView) -> Json {
    node_json(candidate.node, candidate.public_key, candidate.signature)
}

/// The report on a build with these candidates.
pub open spec fn is_report(
    report: BuildReport,
    list: Seq<CandidateView>,
    config: AppConfig,
    now: u64,
    seed_nodes: usize,
) -> bool {
    &&& report.schema_version == 1
    &&& report.generated_at == now
    &&& report.seed_global_config_path@ == shown_path(buf_bytes(config.seed_global_config_path))
    &&& report.output_global_config_path@ == shown_path(
        buf_bytes(config.output_global_config_path),
    )
    &&& report.seed_nodes == seed_nodes
    &&& report.discovered_nodes == list.len()
    &&& report.included_nodes == selected(list, config, now).len()
    &&& report.excluded_nodes == list.len() - selected(list, config, now).len()
    &&& report.summary == (BuildSummary {
        crawl_rounds: config.crawl_rounds,
        min_successes: config.min_successes,
        include_seed_nodes: config.include_seed_nodes,
        allow_private_ips: config.allow_private_ips,
        max_output_nodes: config.max_output_nodes,
    })
    &&& entry_views(report.nodes@) == report_entries(list, config, now)
}

fn contains_key(candidates: &CandidateTable, places: &Vec<usize>, key: &str) -> (r: bool)
    requires
        valid_places(candidates@, places@),
    ensures
        r == has_key(candidates@, places@, key@),
{
    let mut k: usize = 0;
    while k < places.len()
        invariant
            valid_places(candidates@, places@),
            k <= places@.len(),
            forall|m: int|
                0 <= m < k ==> (#[trigger] candidates@[places@[m] as int]).public_key != key@,
        decreases places@.len() - k,
    {
        assert(places@[k as int] < candidates@.len());
        if same_text(candidates.get(places[k]).public_key.as_str(), key) {
            assert(candidates@[places@[k as int] as int].public_key == key@);
            return true;
        }
        k = k + 1;
    }
    false
}

fn contains_place(places: &Vec<usize>, place: usize) -> (r: bool)
    ensures
        r == places@.contains(place),
{
    let mut k: usize = 0;
    while k < places.len()
        invariant
            k <= places@.len(),
            forall|m: int| 0 <= m < k ==> places@[m] != place,
        decreases places@.len() - k,
    {
        if places[k] == place {
            return true;
        }
        k = k + 1;
    }
    false
}

/// The report entry on the candidate at a place.
fn report_candidate(
    candidates: &CandidateTable,
    config: &AppConfig,
    now: u64,
    admitted_places: &Vec<usize>,
    selected_places: &Vec<usize>,
    place: usize,
) -> (r: ReportNode)
    requires
        place < candidates@.len(),
        admitted_places@ == admitted(candidates@, *config, now),
        selected_places@ == selected(candidates@, *config, now),
        valid_places(candidates@, selected_places@),
    ensures
        r@ == report_entry(candidates@, *config, now, place as int),
{
    let candidate = candidates.get(place);
    let mut decision = inclusion_decision(candidate, config, now);
    let fits: bool = decision.included;
    decision.included = contains_key(candidates, selected_places, candidate.public_key.as_str());
    if !decision.included && fits {
        if contains_place(admitted_places, place) {
            decision.reason = "excluded by max_output_nodes limit".to_owned();
        } else {
            decision.reason = "excluded by max_seed_nodes_in_output limit".to_owned();
        }
    }
    candidate_report(candidate, decision)
}

/// The report on a build with these candidates. `seed_nodes` is the number of complete nodes in the
/// seed configuration.
pub fn build_report(
    candidates: &CandidateTable,
    config: &AppConfig,
    now: u64,
    seed_nodes: usize,
) -> (r: BuildReport)
    ensures
        is_report(r, candidates@, *config, now, seed_nodes),
{
    let ghost list = candidates@;
    let discovered: usize = candidates.len();
    let admitted_places = admit_within_limit(candidates, config, now);
    let selected_places = keep_at_most(&admitted_places, config.max_output_nodes);
    let places = places_of(candidates);
    let order = arrange(candidates, &places, NodeOrder::PublicKey);
    let mut nodes: Vec<ReportNode> = Vec::new();
    let mut k: usize = 0;
    while k < order.len()
        invariant
            list == candidates@,
            valid_places(list, order@),
            order@ == report_order(list),
            admitted_places@ == admitted(list, *config, now),
            selected_places@ == selected(list, *config, now),
            valid_places(list, selected_places@),
            k <= order@.len(),
            entry_views(nodes@) =~= report_entries(list, *config, now).take(k as int),
        decreases order@.len() - k,
    {
        assert(order@[k as int] < list.len());
        let entry = report_candidate(
            candidates,
            config,
            now,
            &admitted_places,
            &selected_places,
            order[k],
        );
        let ghost before = nodes@;
        nodes.push(entry);
        proof {
            let entries = report_entries(list, *config, now);
            assert(entry_views(nodes@) =~= entry_views(before).push(entry@));
            assert(entries.take(k + 1) =~= entries.take(k as int).push(entries[k as int]));
        }
        k = k + 1;
    }
    proof {
        law_selection_is_no_larger(list, *config, now);
        assert(report_entries(list, *config, now).take(k as int) =~= report_entries(
            list,
            *config,
            now,
        ));
    }
    BuildReport {
        schema_version: 1,
        generated_at: now,
        seed_global_config_path: show(as_path(&config.seed_global_config_path)),
        output_global_config_path: show(as_path(&config.output_global_config_path)),
        seed_nodes,
        discovered_nodes: discovered,
        included_nodes: selected_places.len(),
        excluded_nodes: discovered - selected_places.len(),
        summary: BuildSummary {
            crawl_rounds: config.crawl_rounds,
            min_successes: config.min_successes,
            include_seed_nodes: config.include_seed_nodes,
            allow_private_ips: config.allow_private_ips,
            max_output_nodes: config.max_output_nodes,
        },
        nodes,
    }
}

/// The candidate at a place in JSON, if it has a UDP address.
pub fn candidate_to_json(
    candidates: &CandidateTable,
    place: usize,
) -> (r: Result<serde_json::Value, BuildError>)
    requires
        candidates.wf(),
        place < candidates@.len(),
    ensures
        match r {
            Ok(value) => {
                &&& endpoint_of(candidates@[place as int].node.addr_list.addrs) is Some
                &&& json_view(value) == candidate_json(candidates@[place as int])
            },
            Err(error) => {
                &&& endpoint_of(candidates@[place as int].node.addr_list.addrs) is None
                &&& error@ == ErrorView::NoUdpAddresses
            },
        },
{
    let candidate = candidates.get(place);
    proof {
        law_endpoint_needs_udp(candidates@[place as int].node.addr_list.addrs);
    }
    dht_node_to_json(&candidate.node, candidate.public_key.as_str(), candidate.signature.as_str())
}

/// Why a seed configuration cannot take the nodes, if it cannot.
pub open spec fn build_error(seed_json: Json) -> Option<ErrorView> {
    if typed_dht(seed_json) is None {
        Some(ErrorView::NoDhtObject)
    } else if typed_static_nodes(seed_json) is None {
        Some(ErrorView::NoStaticNodesObject)
    } else {
        None
    }
}

/// What a build makes of the candidates and the seed configuration.
pub open spec fn is_build(
    made: Json,
    report: BuildReport,
    seed_json: Json,
    list: Seq<CandidateView>,
    config: AppConfig,
    now: u64,
    seed_nodes: usize,
) -> bool {
    &&& build_error(seed_json) is None
    &&& made == with_nodes(seed_json, output_json(list, config, now))
    &&& is_report(report, list, config, now, seed_nodes)
}

/// Makes the configuration and the report, from the candidates as the crawl left them and the
/// seed configuration.
pub fn finish_build(
    candidates: &CandidateTable,
    config: &AppConfig,
    now: u64,
    seed_nodes: usize,
    seed_json: serde_json::Value,
) -> (r: Result<BuildOutput, BuildError>)
    requires
        candidates.wf(),
    ensures
        match r {
            Ok(output) => is_build(
                json_view(output.config),
                output.report,
                json_view(seed_json),
                candidates@,
                *config,
                now,
                seed_nodes,
            ),
            Err(error) => build_error(json_view(seed_json)) == Some(error@),
        },
{
    let ghost list = candidates@;
    let places = select_output(candidates, config, now);
    let mut values: Vec<serde_json::Value> = Vec::new();
    let mut k: usize = 0;
    while k < places.len()
        invariant
            candidates.wf(),
            list == candidates@,
            list.len() <= usize::MAX,
            places@ == selected(list, *config, now),
            valid_places(list, places@),
            k <= places@.len(),
            json_views(values@) =~= output_json(list, *config, now).take(k as int),
        decreases places@.len() - k,
    {
        proof {
            law_selected_are_fit(list, *config, now, k as int);
        }
        match candidate_to_json(candidates, places[k]) {
            Ok(value) => {
                let ghost before = values@;
                values.push(value);
                proof {
                    let nodes = output_json(list, *config, now);
                    assert(json_views(values@) =~= json_views(before).push(json_view(value)));
                    assert(nodes.take(k + 1) =~= nodes.take(k as int).push(nodes[k as int]));
                }
            },
            Err(error) => {
                assert(false);
                return Err(error);
            },
        }
        k = k + 1;
    }
    assert(json_views(values@) =~= output_json(list, *config, now));
    let mut output = seed_json;
    match set_output_dht_nodes(&mut output, values) {
        Ok(_) => Ok(
            BuildOutput {
                config: output,
                report: build_report(candidates, config, now, seed_nodes),
            },
        ),
        Err(error) => Err(error),
    }
}

/// The counts of a report add up, and it has one entry on each candidate.
pub proof fn law_report_counts_add_up(
    report: BuildReport,
    list: Seq<CandidateView>,
    config: AppConfig,
    now: u64,
    seed_nodes: usize,
)
    requires
        list.len() <= usize::MAX,
        is_report(report, list, config, now, seed_nodes),
    ensures
        report.included_nodes + report.excluded_nodes == report.discovered_nodes,
        report.included_nodes <= config.max_output_nodes,
        report.nodes@.len() == report.discovered_nodes,
{
    law_selection_is_no_larger(list, config, now);
    assert(all_places(list).no_duplicates());
    lemma_arrangement_exists(NodeOrder::PublicKey, list, all_places(list));
    assert(entry_views(report.nodes@).len() == report.nodes@.len());
}

/// The report is in the order of the keys.
pub proof fn law_report_is_sorted(
    list: Seq<CandidateView>,
    config: AppConfig,
    now: u64,
    i: int,
    j: int,
)
    requires
        list.len() <= usize::MAX,
        0 <= i < j < report_entries(list, config, now).len(),
    ensures
        report_entries(list, config, now)[i].public_key == report_entries(
            list,
            config,
            now,
        )[j].public_key || text_before(
            report_entries(list, config, now)[i].public_key,
            report_entries(list, config, now)[j].public_key,
        ),
{
    assert(all_places(list).no_duplicates());
    lemma_arrangement_exists(NodeOrder::PublicKey, list, all_places(list));
    let order = report_order(list);
    assert(place_order(NodeOrder::PublicKey, list)(order[i], order[j]));
}

/// Where no two candidates share a key, the report marks as included just those that are in the
/// output, and says `included` of just these.
pub proof fn law_report_marks_the_output(
    list: Seq<CandidateView>,
    config: AppConfig,
    now: u64,
    i: int,
)
    requires
        list.len() <= usize::MAX,
        0 <= i < list.len(),
        forall|a: int, b: int|
            0 <= a < b < list.len() ==> (#[trigger] list[a]).public_key != (
            #[trigger] list[b]).public_key,
    ensures
        report_entry(list, config, now, i).included <==> selected(list, config, now).contains(
            i as usize,
        ),
        report_entry(list, config, now, i).included <==> report_entry(list, config, now, i).reason
            == "included"@,
{
    let places = selected(list, config, now);
    if report_entry(list, config, now, i).included {
        let k = choose|k: int|
            0 <= k < places.len() && (#[trigger] list[places[k] as int]).public_key
                == list[i].public_key;
        law_selected_are_fit(list, config, now, k);
        let p = places[k] as int;
        if p < i {
            assert(list[p].public_key != list[i].public_key);
        } else if i < p {
            assert(list[i].public_key != list[p].public_key);
        }
        assert(places[k] == i as usize);
    }
    if places.contains(i as usize) {
        let k = choose|k: int| 0 <= k < places.len() && places[k] == i as usize;
        law_selected_are_fit(list, config, now, k);
        assert(list[places[k] as int].public_key == list[i].public_key);
    }
    law_reason_tells_the_decision(list[i], config, now);
    reveal_strlit("included");
    reveal_strlit("excluded by max_output_nodes limit");
    reveal_strlit("excluded by max_seed_nodes_in_output limit");
    assert("included"@[0] == 'i');
    assert("excluded by max_output_nodes limit"@[0] == 'e');
    assert("excluded by max_seed_nodes_in_output limit"@[0] == 'e');
}

/// With settings that force no seed nodes, allow no private addresses and want a success, every
/// node of the output was reached during the build, at a public IPv4 address.
pub proof fn law_output_is_reachable_and_public(
    list: Seq<CandidateView>,
    config: AppConfig,
    now: u64,
    k: int,
)
    requires
        list.len() <= usize::MAX,
        !config.include_seed_nodes,
        !config.allow_private_ips,
        config.min_successes >= 1,
        0 <= k < selected(list, config, now).len(),
    ensures
        ({
            let candidate = list[selected(list, config, now)[k] as int];
            let endpoint = endpoint_of(candidate.node.addr_list.addrs);
            &&& candidate.success_count >= 1
            &&& endpoint is Some
            &&& endpoint->0.ip.public()
            &&& output_json(list, config, now)[k] == candidate_json(candidate)
        }),
{
    law_selected_are_fit(list, config, now, k);
    law_default_policy_wants_reachable_public_peers(
        list[selected(list, config, now)[k] as int],
        config,
        now,
    );
}

/// With settings that force no seed nodes and want a success, every node of the output has
/// answered a query or a ping, whatever the course of the crawl that found it.
pub proof fn law_output_nodes_have_answered(
    seeds: Seq<NodeRecordView>,
    accepted: Seq<bool>,
    states: Seq<CrawlView>,
    events: Seq<CrawlEvent>,
    config: AppConfig,
    now: u64,
    k: int,
)
    requires
        is_course(states, events),
        begins_with(states[0], seeds, accepted),
        states.last().candidates.len() <= usize::MAX,
        !config.include_seed_nodes,
        config.min_successes >= 1,
        0 <= k < selected(states.last().candidates, config, now).len(),
    ensures
        ({
            let list = states.last().candidates;
            let candidate = list[selected(list, config, now)[k] as int];
            &&& output_json(list, config, now)[k] == candidate_json(candidate)
            &&& has_answered(states, events, candidate.key_id)
        }),
{
    let list = states.last().candidates;
    let i = selected(list, config, now)[k] as int;
    law_selected_are_fit(list, config, now, k);
    assert(crawl_wf(states[states.len() - 1]));
    lemma_by_key_at(list, i);
    law_success_means_an_answer(seeds, accepted, states, events, list[i].key_id);
}

/// Every node of the output is verified: it is a seed node that the network took, or one that the
/// network told of, and it is written as that record has it.
pub proof fn law_output_nodes_are_verified(
    seeds: Seq<NodeRecordView>,
    accepted: Seq<bool>,
    states: Seq<CrawlView>,
    events: Seq<CrawlEvent>,
    config: AppConfig,
    now: u64,
    k: int,
)
    requires
        is_course(states, events),
        begins_with(states[0], seeds, accepted),
        states.last().candidates.len() <= usize::MAX,
        0 <= k < output_json(states.last().candidates, config, now).len(),
    ensures
        exists|record: NodeRecordView|
            (was_accepted(seeds, accepted, record) || network_told(events, record))
                && output_json(states.last().candidates, config, now)[k] == #[trigger] node_json(
                record.node,
                record.public_key,
                record.signature,
            ),
{
    let list = states.last().candidates;
    let i = selected(list, config, now)[k] as int;
    law_selected_are_fit(list, config, now, k);
    assert(crawl_wf(states[states.len() - 1]));
    lemma_by_key_at(list, i);
    law_candidates_come_from_records(seeds, accepted, states, events, list[i].key_id);
    let record = choose|record: NodeRecordView|
        is_source(seeds, accepted, events, record) && #[trigger] told_by(
            list[i],
            list[i].key_id,
            record,
        );
    assert(output_json(list, config, now)[k] == node_json(
        record.node,
        record.public_key,
        record.signature,
    ));
}

/// A seed node that the network did not take is in no output, unless the network itself tells of
/// it.
pub proof fn law_rejected_seed_is_not_emitted(
    seeds: Seq<NodeRecordView>,
    accepted: Seq<bool>,
    states: Seq<CrawlView>,
    events: Seq<CrawlEvent>,
    config: AppConfig,
    now: u64,
    key: Seq<char>,
    k: int,
)
    requires
        is_course(states, events),
        begins_with(states[0], seeds, accepted),
        states.last().candidates.len() <= usize::MAX,
        forall|record: NodeRecordView|
            #![trigger was_accepted(seeds, accepted, record)]
            #![trigger network_told(events, record)]
            was_accepted(seeds, accepted, record) || network_told(events, record)
                ==> record.key_id != Ok::<Seq<char>, Seq<char>>(key),
        0 <= k < selected(states.last().candidates, config, now).len(),
    ensures
        ({
            let list = states.last().candidates;
            list[selected(list, config, now)[k] as int].key_id != key
        }),
{
    let list = states.last().candidates;
    law_selected_are_fit(list, config, now, k);
    assert(crawl_wf(states[states.len() - 1]));
    lemma_by_key_at(list, selected(list, config, now)[k] as int);
    law_rejected_seed_is_no_candidate(seeds, accepted, states, events, key);
}

/// Where the nodes that a crawl learnt of have one identifier if they have one key, its report
/// marks as included just those that are in the output, and says `included` of just these.
pub proof fn law_report_on_a_crawl_marks_the_output(
    seeds: Seq<NodeRecordView>,
    accepted: Seq<bool>,
    states: Seq<CrawlView>,
    events: Seq<CrawlEvent>,
    config: AppConfig,
    now: u64,
    i: int,
)
    requires
        is_course(states, events),
        begins_with(states[0], seeds, accepted),
        keys_identify(seeds, accepted, events),
        states.last().candidates.len() <= usize::MAX,
        0 <= i < states.last().candidates.len(),
    ensures
        ({
            let list = states.last().candidates;
            let entry = report_entry(list, config, now, i);
            &&& entry.included <==> selected(list, config, now).contains(i as usize)
            &&& entry.included <==> entry.reason == "included"@
        }),
{
    let list = states.last().candidates;
    assert forall|a: int, b: int| 0 <= a < b < list.len() implies (
    #[trigger] list[a]).public_key != (#[trigger] list[b]).public_key by {
        law_public_keys_are_distinct(seeds, accepted, states, events, a, b);
    }
    law_report_marks_the_output(list, config, now, i);
}

/// The output has as many nodes as the report counts.
pub proof fn law_output_has_the_counted_nodes(
    report: BuildReport,
    list: Seq<CandidateView>,
    config: AppConfig,
    now: u64,
    seed_nodes: usize,
)
    requires
        is_report(report, list, config, now, seed_nodes),
    ensures
        output_json(list, config, now).len() == report.included_nodes,
{
}

/// A report repeats when the build began, the paths, the number of seed nodes and the settings that
/// decided, each in its own place.
pub proof fn law_report_repeats_the_build(
    report: BuildReport,
    list: Seq<CandidateView>,
    config: AppConfig,
    now: u64,
    seed_nodes: usize,
)
    requires
        is_report(report, list, config, now, seed_nodes),
    ensures
        report.schema_version == 1,
        report.generated_at == now,
        report.seed_nodes == seed_nodes,
        report.discovered_nodes == list.len(),
        report.seed_global_config_path@ == shown_path(buf_bytes(config.seed_global_config_path)),
        report.output_global_config_path@ == shown_path(
            buf_bytes(config.output_global_config_path),
        ),
        report.summary.crawl_rounds == config.crawl_rounds,
        report.summary.min_successes == config.min_successes,
        report.summary.include_seed_nodes == config.include_seed_nodes,
        report.summary.allow_private_ips == config.allow_private_ips,
        report.summary.max_output_nodes == config.max_output_nodes,
{
}

/// The report has one entry on each candidate, and no others: with what is known of the candidate,
/// field by field.
pub proof fn law_report_has_an_entry_on_each_candidate(
    report: BuildReport,
    list: Seq<CandidateView>,
    config: AppConfig,
    now: u64,
    seed_nodes: usize,
    i: int,
)
    requires
        list.len() <= usize::MAX,
        is_report(report, list, config, now, seed_nodes),
        0 <= i < list.len(),
    ensures
        report.nodes@.len() == list.len(),
        exists|k: int|
            0 <= k < report.nodes@.len() && #[trigger] repeats(report.nodes@[k]@, list[i]),
        exists|j: int| 0 <= j < list.len() && repeats(report.nodes@[i]@, #[trigger] list[j]),
{
    let order = report_order(list);
    let entries = report_entries(list, config, now);
    assert(all_places(list).no_duplicates());
    lemma_arrangement_exists(NodeOrder::PublicKey, list, all_places(list));
    assert(all_places(list)[i] == i as usize);
    assert(all_places(list).contains(i as usize));
    assert(order.contains(i as usize));
    let k = choose|k: int| 0 <= k < order.len() && order[k] == i as usize;
    assert(entry_views(report.nodes@).len() == report.nodes@.len());
    assert(entry_views(report.nodes@)[k] == report.nodes@[k]@);
    assert(entries[k] == report_entry(list, config, now, i));
    assert(repeats(report.nodes@[k]@, list[i]));
    assert(order.contains(order[i]));
    assert(all_places(list).contains(order[i]));
    let j = order[i] as int;
    assert(entry_views(report.nodes@)[i] == report.nodes@[i]@);
    assert(entries[i] == report_entry(list, config, now, j));
    assert(repeats(report.nodes@[i]@, list[j]));
}

/// An entry of a report holds what is known of a candidate.
pub open spec fn repeats(entry: ReportNodeView, candidate: CandidateView) -> bool {
    &&& entry.key_id == candidate.key_id
    &&& entry.public_key == candidate.public_key
    &&& entry.seed == candidate.seed
    &&& entry.seen_count == candidate.seen_count
    &&& entry.success_count == candidate.success_count
    &&& entry.first_seen_at == candidate.first_seen_at
    &&& entry.last_seen_at == candidate.last_seen_at
    &&& entry.version == candidate.node.version
    &&& entry.expire_at == candidate.node.addr_list.expire_at
    &&& entry.last_error == candidate.last_error
}

/// Where no two candidates share a key, an entry that is marked as included speaks of a node that
/// may be in the output, by what the entry itself says: with settings that force no seed nodes it
/// has enough successes, its addresses have no end or one that is yet to come, and it has an
/// address. The reason of an entry is `included` just where it is marked so.
pub proof fn law_included_entries_show_why(
    list: Seq<CandidateView>,
    config: AppConfig,
    now: u64,
    i: int,
)
    requires
        list.len() <= usize::MAX,
        0 <= i < list.len(),
        forall|a: int, b: int|
            0 <= a < b < list.len() ==> (#[trigger] list[a]).public_key != (
            #[trigger] list[b]).public_key,
        report_entry(list, config, now, i).included,
    ensures
        ({
            let entry = report_entry(list, config, now, i);
            &&& entry.success_count >= config.min_successes || (config.include_seed_nodes
                && entry.seed)
            &&& entry.expire_at > 0 ==> entry.expire_at > now
            &&& entry.ip is Some
            &&& entry.port is Some
            &&& entry.reason == "included"@
        }),
{
    law_report_marks_the_output(list, config, now, i);
    let places = selected(list, config, now);
    let k = choose|k: int| 0 <= k < places.len() && places[k] == i as usize;
    law_selected_are_fit(list, config, now, k);
}

/// The reason of an entry that is not marked as included is the check that the candidate does not
/// pass. For one that passes all, it is the limit on the output where the output is full of
/// candidates that are no worse, and the limit on seed nodes only for a seed node.
pub proof fn law_excluded_entries_show_why(
    list: Seq<CandidateView>,
    config: AppConfig,
    now: u64,
    i: int,
)
    requires
        ascending(list),
        list.len() <= usize::MAX,
        0 <= i < list.len(),
        !report_entry(list, config, now, i).included,
    ensures
        ({
            let entry = report_entry(list, config, now, i);
            let some = selected(list, config, now);
            &&& !fit(list[i], config, now) ==> entry.reason == decision_on(
                list[i],
                config,
                now,
            ).reason
            &&& fit(list[i], config, now) ==> {
                ||| {
                    &&& entry.reason == "excluded by max_output_nodes limit"@
                    &&& some.len() == config.max_output_nodes
                    &&& forall|k: int|
                        0 <= k < some.len() ==> no_worse(list[#[trigger] some[k] as int], list[i])
                }
                ||| {
                    &&& entry.reason == "excluded by max_seed_nodes_in_output limit"@
                    &&& entry.seed
                    &&& exists|better: Seq<usize>| #[trigger]
                        better.no_duplicates() && better.len() >= config.max_seed_nodes_in_output
                            && forall|m: int|
                            0 <= m < better.len() ==> {
                                let y = #[trigger] better[m];
                                &&& y < list.len()
                                &&& y != i as usize
                                &&& list[y as int].seed
                                &&& fit(list[y as int], config, now)
                                &&& no_worse(list[y as int], list[i])
                            }
                }
            }
        }),
{
    let some = selected(list, config, now);
    let all = admitted(list, config, now);
    let x = i as usize;
    if fit(list[i], config, now) {
        if all.contains(x) {
            lemma_selection(list, config, now);
            let p = choose|p: int| 0 <= p < all.len() && all[p] == x;
            if p < some.len() {
                assert(some[p] == x);
                assert(list[some[p] as int].public_key == list[i].public_key);
            }
            assert forall|k: int| 0 <= k < some.len() implies no_worse(
                list[#[trigger] some[k] as int],
                list[i],
            ) by {
                assert(place_order(NodeOrder::Rank, list)(all[k], all[p]));
                law_selected_are_fit(list, config, now, k);
                lemma_precedes_is_no_worse(list, some[k] as int, i);
            }
        } else {
            law_seed_limit_takes_the_worst(list, config, now, x);
        }
    }
}

/// The output holds the candidates that were selected, in their order, each as the JSON of its node
/// with its key and its signature.
pub proof fn law_output_holds_the_selected(
    list: Seq<CandidateView>,
    config: AppConfig,
    now: u64,
    k: int,
)
    requires
        0 <= k < selected(list, config, now).len(),
    ensures
        ({
            let candidate = list[selected(list, config, now)[k] as int];
            &&& output_json(list, config, now).len() == selected(list, config, now).len()
            &&& output_json(list, config, now)[k] == node_json(
                candidate.node,
                candidate.public_key,
                candidate.signature,
            )
        }),
{
}

/// A build succeeds exactly if the seed configuration is an object whose `dht` is an object whose
/// `static_nodes` is an object, whatever the candidates are; without a `dht` object that is what is
/// said.
pub proof fn law_build_needs_the_objects_alone(seed_json: Json)
    ensures
        ({
            let dht = seed_json->Object_0["dht"@];
            let has_dht = seed_json is Object && seed_json->Object_0.dom().contains("dht"@)
                && dht is Object;
            let has_list = has_dht && dht->Object_0.dom().contains("static_nodes"@)
                && dht->Object_0["static_nodes"@] is Object;
            &&& build_error(seed_json) == if !has_dht {
                Some(ErrorView::NoDhtObject)
            } else if !has_list {
                Some(ErrorView::NoStaticNodesObject)
            } else {
                None
            }
        }),
{
    law_replacement_needs_the_objects(seed_json);
}

/// What a build makes has, as its static nodes, the nodes that were selected, in their order, as
/// many as the report counts; outside `dht` it is the seed configuration.
pub proof fn law_build_puts_the_selected_in_place(
    made: Json,
    report: BuildReport,
    seed_json: Json,
    list: Seq<CandidateView>,
    config: AppConfig,
    now: u64,
    seed_nodes: usize,
    key: Seq<char>,
)
    requires
        is_build(made, report, seed_json, list, config, now, seed_nodes),
    ensures
        made is Object,
        key != "dht"@ ==> {
            &&& made->Object_0.dom().contains(key) == seed_json->Object_0.dom().contains(key)
            &&& made->Object_0.dom().contains(key) ==> made->Object_0[key]
                == seed_json->Object_0[key]
        },
        ({
            let list_json = object_member(
                Json::Object(object_member(made, "dht"@)->0),
                "static_nodes"@,
            );
            let nodes = list_json->0["nodes"@]->List_0;
            &&& list_json is Some
            &&& list_json->0.dom().contains("nodes"@)
            &&& list_json->0["nodes"@] is List
            &&& nodes.len() == report.included_nodes == selected(list, config, now).len()
            &&& forall|k: int|
                0 <= k < nodes.len() ==> #[trigger] nodes[k] == node_json(
                    list[selected(list, config, now)[k] as int].node,
                    list[selected(list, config, now)[k] as int].public_key,
                    list[selected(list, config, now)[k] as int].signature,
                )
        }),
{
    let nodes = output_json(list, config, now);
    law_replacement_keeps_all_else(seed_json, nodes);
    law_replacement_sets_nodes(seed_json, nodes);
    if key != "dht"@ {
        assert(same_member(seed_json->Object_0, made->Object_0, key));
    }
}

/// An entry is marked as included exactly if a candidate with its key is in the output.
pub proof fn law_entries_are_marked_by_their_key(
    list: Seq<CandidateView>,
    config: AppConfig,
    now: u64,
    i: int,
    k: int,
)
    requires
        list.len() <= usize::MAX,
        0 <= i < list.len(),
    ensures
        ({
            let entry = report_entry(list, config, now, i);
            let some = selected(list, config, now);
            &&& 0 <= k < some.len() && list[some[k] as int].public_key == list[i].public_key
                ==> entry.included
            &&& (forall|m: int|
                0 <= m < some.len() ==> list[#[trigger] some[m] as int].public_key
                    != list[i].public_key) ==> !entry.included
        }),
{
    let some = selected(list, config, now);
    if report_entry(list, config, now, i).included {
        let m = choose|m: int|
            0 <= m < some.len() && (#[trigger] list[some[m] as int]).public_key
                == list[i].public_key;
        assert(list[some[m] as int].public_key == list[i].public_key);
    }
}

/// Entries of the report that share a key are in the order of their identifiers.
pub proof fn law_entries_of_one_key_are_in_order(
    list: Seq<CandidateView>,
    config: AppConfig,
    now: u64,
    i: int,
    j: int,
)
    requires
        ascending(list),
        list.len() <= usize::MAX,
        0 <= i < j < report_entries(list, config, now).len(),
        report_entries(list, config, now)[i].public_key == report_entries(
            list,
            config,
            now,
        )[j].public_key,
    ensures
        text_before(
            report_entries(list, config, now)[i].key_id,
            report_entries(list, config, now)[j].key_id,
        ),
{
    let order = report_order(list);
    assert(all_places(list).no_duplicates());
    lemma_arrangement_exists(NodeOrder::PublicKey, list, all_places(list));
    assert(place_order(NodeOrder::PublicKey, list)(order[i], order[j]));
    assert(order.contains(order[i]) && order.contains(order[j]));
    assert(all_places(list).contains(order[i]) && all_places(list).contains(order[j]));
    let (a, b) = (order[i] as int, order[j] as int);
    law_text_order_is_strict(list[a].public_key, list[a].public_key);
    assert(text_before(list[a].key_id, list[b].key_id));
}

} // verus!
