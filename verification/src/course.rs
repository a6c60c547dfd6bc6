//! What a crawl comes to, from its start to any point of its course: how often each peer is
//! called, and what is known of it by then.

use crate::candidate::{
    ascending, by_key, keys_of, law_records_lose_nothing, lemma_by_key_at, stands_at, targets_of,
    times, with_records, CandidateView, NodeRecordView, Outcome, PeerError,
};
use crate::config::AppConfig;
use crate::crawl::{
    accepted_of, answers, calling, crawl_wf, is_among, is_course, last_outcome,
    law_calls_keep_candidates, law_last_call_is_noted, law_seed_nodes_are_those_of_the_seeds,
    law_successes_add_up, lemma_shorter_course, lemma_sightings, silence, starts_crawl, times_seen,
    times_told, CrawlEvent, CrawlView, Phase,
};
use crate::text::{law_text_order_is_strict, text_before};
use vstd::prelude::*;

verus! {

/// How often a crawl has read what the network knows.
pub open spec fn looks(events: Seq<CrawlEvent>) -> nat
    decreases events.len(),
{
    if events.len() == 0 {
        0
    } else {
        looks(events.drop_last()) + if events.last() is Known {
            1nat
        } else {
            0
        }
    }
}

/// How often a crawl has read what the network knows and then had that candidate.
pub open spec fn looks_with(
    states: Seq<CrawlView>,
    events: Seq<CrawlEvent>,
    key: Seq<char>,
) -> nat
    decreases events.len(),
{
    if events.len() == 0 {
        0
    } else {
        looks_with(states.drop_last(), events.drop_last(), key) + if events.last() is Known
            && by_key(states.last().candidates).dom().contains(key) {
            1nat
        } else {
            0
        }
    }
}

/// How often a peer has been called in a phase.
pub open spec fn times_called(
    states: Seq<CrawlView>,
    events: Seq<CrawlEvent>,
    phase: Phase,
    key: Seq<char>,
) -> nat
    decreases events.len(),
{
    if events.len() == 0 {
        0
    } else {
        let before = states.drop_last().last();
        times_called(states.drop_last(), events.drop_last(), phase, key) + if events.last()
            is Called && before.phase == phase {
            times(before.asked, key)
        } else {
            0
        }
    }
}

/// How many of the calls to a peer it has answered.
pub open spec fn times_answered(
    states: Seq<CrawlView>,
    events: Seq<CrawlEvent>,
    key: Seq<char>,
) -> nat
    decreases events.len(),
{
    if events.len() == 0 {
        0
    } else {
        times_answered(states.drop_last(), events.drop_last(), key) + match events.last() {
            CrawlEvent::Called(outcomes) => answers(
                states.drop_last().last().asked,
                outcomes,
                key,
            ),
            CrawlEvent::Known(_) => 0,
        }
    }
}

/// In which phase a peer was called last, and how that call went.
pub open spec fn last_call(
    states: Seq<CrawlView>,
    events: Seq<CrawlEvent>,
    key: Seq<char>,
) -> Option<(Phase, Outcome)>
    decreases events.len(),
{
    if events.len() == 0 {
        None
    } else {
        let before = states.drop_last().last();
        let earlier = last_call(states.drop_last(), events.drop_last(), key);
        match events.last() {
            CrawlEvent::Called(outcomes) => match last_outcome(before.asked, outcomes, key) {
                Some(outcome) => Some((before.phase, outcome)),
                None => earlier,
            },
            CrawlEvent::Known(_) => earlier,
        }
    }
}

/// The last of the records on a node, if there is one.
pub open spec fn last_record(
    records: Seq<NodeRecordView>,
    key: Seq<char>,
) -> Option<NodeRecordView>
    decreases records.len(),
{
    if records.len() == 0 {
        None
    } else if records.last().key_id == Ok::<Seq<char>, Seq<char>>(key) {
        Some(records.last())
    } else {
        last_record(records.drop_last(), key)
    }
}

/// What was told of a node last: by the network, or else by the seed nodes that it took.
pub open spec fn last_told(
    kept: Seq<NodeRecordView>,
    events: Seq<CrawlEvent>,
    key: Seq<char>,
) -> Option<NodeRecordView>
    decreases events.len(),
{
    if events.len() == 0 {
        last_record(kept, key)
    } else {
        let earlier = last_told(kept, events.drop_last(), key);
        match events.last() {
            CrawlEvent::Known(records) => match last_record(records, key) {
                Some(record) => Some(record),
                None => earlier,
            },
            CrawlEvent::Called(_) => earlier,
        }
    }
}

/// All rounds of queries are over.
pub open spec fn past_rounds(phase: Phase) -> bool {
    phase is Pinging || phase is Finished
}

proof fn lemma_times_split(keys: Seq<Seq<char>>, n: int, key: Seq<char>)
    requires
        0 <= n <= keys.len(),
    ensures
        times(keys.take(n), key) + times(keys.skip(n), key) == times(keys, key),
    decreases keys.len(),
{
    if n == keys.len() {
        assert(keys.take(n) =~= keys);
        assert(keys.skip(n) =~= seq![]);
    } else {
        let rest = keys.drop_last();
        lemma_times_split(rest, n, key);
        assert(keys.skip(n).drop_last() =~= rest.skip(n));
        assert(keys.take(n) =~= rest.take(n));
    }
}

/// A candidate is once among the peers that are queried or not at all.
proof fn lemma_times_targets(list: Seq<CandidateView>, recursive: bool, key: Seq<char>)
    requires
        ascending(list),
    ensures
        times(targets_of(list, recursive), key) == if by_key(list).dom().contains(key) && (
        recursive || by_key(list)[key].seed) {
            1nat
        } else {
            0
        },
    decreases list.len(),
{
    reveal(Seq::filter);
    let targets = targets_of(list, recursive);
    if list.len() == 0 {
        assert(targets =~= seq![]);
        assert(!by_key(list).dom().contains(key));
    } else {
        let rest = list.drop_last();
        let last = list.last();
        assert(ascending(rest)) by {
            assert forall|i: int, j: int| 0 <= i < j < rest.len() implies text_before(
                (#[trigger] rest[i]).key_id,
                (#[trigger] rest[j]).key_id,
            ) by {
                assert(text_before(list[i].key_id, list[j].key_id));
            }
        }
        lemma_times_targets(rest, recursive, key);
        let before = targets_of(rest, recursive);
        if recursive || last.seed {
            assert(targets =~= before.push(last.key_id));
            assert(targets.drop_last() =~= before);
        } else {
            assert(targets =~= before);
        }
        lemma_by_key_at(list, list.len() - 1);
        if by_key(rest).dom().contains(key) {
            let i = choose|i: int| #[trigger] stands_at(rest, key, i);
            assert(stands_at(rest, key, i));
            lemma_by_key_at(rest, i);
            lemma_by_key_at(list, i);
            assert(list[i] == rest[i]);
            assert(text_before(list[i].key_id, list[list.len() - 1].key_id));
            law_text_order_is_strict(key, key);
        } else if by_key(list).dom().contains(key) {
            let i = choose|i: int| #[trigger] stands_at(list, key, i);
            assert(stands_at(list, key, i));
            if i < rest.len() {
                assert(stands_at(rest, key, i));
            }
        }
    }
}

/// How the calls of a crawl stand at a point of its course.
proof fn lemma_calls(
    seeds: Seq<NodeRecordView>,
    accepted: Seq<bool>,
    config: AppConfig,
    now: u64,
    states: Seq<CrawlView>,
    events: Seq<CrawlEvent>,
    key: Seq<char>,
)
    requires
        is_course(states, events),
        starts_crawl(states[0], seeds, accepted, config, now),
    ensures
        ({
            let end = states.last();
            let known = by_key(end.candidates).dom().contains(key);
            let target = config.recursive_crawl || is_among(seeds, key);
            let open = times(end.asked, key) + times(end.pending, key);
            let seen = looks_with(states, events, key);
            let queried = times_called(states, events, Phase::Querying, key);
            let pinged = times_called(states, events, Phase::Pinging, key);
            &&& end.rounds == config.crawl_rounds
            &&& end.recursive == config.recursive_crawl
            &&& end.workers == states[0].workers
            &&& end.now == now
            &&& looks(events) == if past_rounds(end.phase) {
                config.crawl_rounds + 1
            } else {
                end.round as int
            }
            &&& !known ==> seen == 0
            &&& !calling(end.phase) ==> open == 0
            &&& queried + if end.phase is Querying {
                open
            } else {
                0
            } == if !target {
                0
            } else if past_rounds(end.phase) && known {
                seen - 1
            } else {
                seen as int
            }
            &&& pinged + if end.phase is Pinging {
                open
            } else {
                0
            } == if past_rounds(end.phase) && known {
                1
            } else {
                0int
            }
        }),
    decreases events.len(),
{
    let end = states.last();
    if events.len() == 0 {
        assert(times(end.asked, key) == 0);
        assert(times(end.pending, key) == 0);
    } else {
        let n = events.len() - 1;
        let (s, e) = (states.drop_last(), events.drop_last());
        lemma_shorter_course(states, events);
        lemma_calls(seeds, accepted, config, now, s, e, key);
        let before = s.last();
        assert(crawl_wf(states[n]));
        assert(crawl_wf(states[n + 1]));
        let known = by_key(before.candidates);
        match events[n] {
            CrawlEvent::Known(records) => {
                if known.dom().contains(key) {
                    law_records_lose_nothing(
                        known,
                        before.rejected,
                        records,
                        false,
                        before.now,
                        key,
                    );
                }
                law_seed_nodes_are_those_of_the_seeds(seeds, accepted, states, events, key);
                let list = end.candidates;
                let m = end.asked.len() as int;
                if before.round < before.rounds {
                    let targets = targets_of(list, before.recursive);
                    lemma_times_targets(list, before.recursive, key);
                    lemma_times_split(targets, m, key);
                } else {
                    lemma_times_targets(list, true, key);
                    lemma_times_split(keys_of(list), m, key);
                }
            },
            CrawlEvent::Called(outcomes) => {
                law_calls_keep_candidates(
                    known,
                    before.asked,
                    outcomes,
                    silence(before.phase),
                    key,
                );
                lemma_times_split(before.pending, end.asked.len() as int, key);
            },
        }
    }
}

/// A seed node that the network took is a candidate at every look.
proof fn lemma_seed_is_always_known(
    seeds: Seq<NodeRecordView>,
    accepted: Seq<bool>,
    config: AppConfig,
    now: u64,
    states: Seq<CrawlView>,
    events: Seq<CrawlEvent>,
    key: Seq<char>,
)
    requires
        is_course(states, events),
        starts_crawl(states[0], seeds, accepted, config, now),
        is_among(accepted_of(seeds, accepted), key),
    ensures
        looks_with(states, events, key) == looks(events),
        by_key(states.last().candidates).dom().contains(key),
        by_key(states.last().candidates)[key].seed,
        is_among(seeds, key),
    decreases events.len(),
{
    law_seed_nodes_are_those_of_the_seeds(seeds, accepted, states, events, key);
    lemma_accepted_is_among(seeds, accepted, key);
    if events.len() > 0 {
        lemma_shorter_course(states, events);
        lemma_seed_is_always_known(
            seeds,
            accepted,
            config,
            now,
            states.drop_last(),
            events.drop_last(),
            key,
        );
    }
}

proof fn lemma_accepted_is_among(
    seeds: Seq<NodeRecordView>,
    accepted: Seq<bool>,
    key: Seq<char>,
)
    requires
        seeds.len() == accepted.len(),
        is_among(accepted_of(seeds, accepted), key),
    ensures
        is_among(seeds, key),
    decreases seeds.len(),
{
    let kept = accepted_of(seeds, accepted);
    let i = choose|i: int| 0 <= i < kept.len() && (#[trigger] kept[i]).key_id == Ok::<
        Seq<char>,
        Seq<char>,
    >(key);
    if seeds.len() > 0 {
        let rest = seeds.drop_last();
        let before = accepted_of(rest, accepted.drop_last());
        if i < before.len() {
            assert(before[i].key_id == Ok::<Seq<char>, Seq<char>>(key));
            lemma_accepted_is_among(rest, accepted.drop_last(), key);
            let j = choose|j: int| 0 <= j < rest.len() && (#[trigger] rest[j]).key_id == Ok::<
                Seq<char>,
                Seq<char>,
            >(key);
            assert(seeds[j].key_id == Ok::<Seq<char>, Seq<char>>(key));
        } else {
            assert(seeds[seeds.len() - 1].key_id == Ok::<Seq<char>, Seq<char>>(key));
        }
    }
}

/// A crawl that pings, or has finished, has run as many rounds of queries as the settings say: it
/// has looked at the network once before each and once after the last, and has queried each seed
/// node that the network took just that often.
pub proof fn law_all_rounds_are_run(
    seeds: Seq<NodeRecordView>,
    accepted: Seq<bool>,
    config: AppConfig,
    now: u64,
    states: Seq<CrawlView>,
    events: Seq<CrawlEvent>,
    key: Seq<char>,
)
    requires
        is_course(states, events),
        starts_crawl(states[0], seeds, accepted, config, now),
        states.last().phase is Pinging || states.last().phase is Finished,
    ensures
        looks(events) == config.crawl_rounds + 1,
        is_among(accepted_of(seeds, accepted), key) ==> times_called(
            states,
            events,
            Phase::Querying,
            key,
        ) == config.crawl_rounds,
{
    lemma_calls(seeds, accepted, config, now, states, events, key);
    if is_among(accepted_of(seeds, accepted), key) {
        lemma_seed_is_always_known(seeds, accepted, config, now, states, events, key);
    }
}

/// By the time that a crawl pings, or has finished, it has queried each of its candidates once in
/// every round before which it had it, if it is recursive or the seed configuration has the node;
/// and else never. The last look at the network is followed by no round.
pub proof fn law_candidates_are_queried_each_round(
    seeds: Seq<NodeRecordView>,
    accepted: Seq<bool>,
    config: AppConfig,
    now: u64,
    states: Seq<CrawlView>,
    events: Seq<CrawlEvent>,
    key: Seq<char>,
)
    requires
        is_course(states, events),
        starts_crawl(states[0], seeds, accepted, config, now),
        states.last().phase is Pinging || states.last().phase is Finished,
        by_key(states.last().candidates).dom().contains(key),
    ensures
        times_called(states, events, Phase::Querying, key) == if config.recursive_crawl
            || is_among(seeds, key) {
            looks_with(states, events, key) - 1
        } else {
            0
        },
{
    lemma_calls(seeds, accepted, config, now, states, events, key);
}

/// A crawl that has finished has pinged each of its candidates once. Before the rounds are over it
/// has pinged none.
pub proof fn law_each_candidate_is_pinged_once(
    seeds: Seq<NodeRecordView>,
    accepted: Seq<bool>,
    config: AppConfig,
    now: u64,
    states: Seq<CrawlView>,
    events: Seq<CrawlEvent>,
    key: Seq<char>,
)
    requires
        is_course(states, events),
        starts_crawl(states[0], seeds, accepted, config, now),
    ensures
        states.last().phase is Finished && by_key(states.last().candidates).dom().contains(key)
            ==> times_called(states, events, Phase::Pinging, key) == 1,
        states.last().phase is Collecting || states.last().phase is Querying ==> times_called(
            states,
            events,
            Phase::Pinging,
            key,
        ) == 0,
        !by_key(states.last().candidates).dom().contains(key) ==> times_called(
            states,
            events,
            Phase::Pinging,
            key,
        ) == 0,
{
    lemma_calls(seeds, accepted, config, now, states, events, key);
}

/// At every point of its course a crawl calls no more peers at a time than the settings say, and
/// fewer only where there are no more to call. Settings without workers are settings with one.
pub proof fn law_calls_are_as_many_as_workers(
    seeds: Seq<NodeRecordView>,
    accepted: Seq<bool>,
    config: AppConfig,
    now: u64,
    states: Seq<CrawlView>,
    events: Seq<CrawlEvent>,
)
    requires
        is_course(states, events),
        starts_crawl(states[0], seeds, accepted, config, now),
    ensures
        ({
            let end = states.last();
            &&& config.workers > 0 ==> end.asked.len() <= config.workers
            &&& config.workers == 0 ==> end.asked.len() <= 1
            &&& end.pending.len() > 0 ==> end.asked.len() == if config.workers == 0 {
                1
            } else {
                config.workers as int
            }
        }),
{
    lemma_calls(seeds, accepted, config, now, states, events, seq![]);
    assert(crawl_wf(states[states.len() - 1]));
    if events.len() > 0 {
        lemma_shorter_course(states, events);
        lemma_calls(
            seeds,
            accepted,
            config,
            now,
            states.drop_last(),
            events.drop_last(),
            seq![],
        );
    }
}

/// Peers in the order of their identifiers, none of them twice.
pub open spec fn in_key_order(keys: Seq<Seq<char>>) -> bool {
    forall|i: int, j: int|
        0 <= i < j < keys.len() ==> text_before(#[trigger] keys[i], #[trigger] keys[j])
}

proof fn lemma_targets_in_key_order(list: Seq<CandidateView>, recursive: bool)
    requires
        ascending(list),
    ensures
        in_key_order(targets_of(list, recursive)),
        forall|i: int|
            0 <= i < targets_of(list, recursive).len() ==> by_key(list).dom().contains(
                #[trigger] targets_of(list, recursive)[i],
            ),
    decreases list.len(),
{
    reveal(Seq::filter);
    let targets = targets_of(list, recursive);
    if list.len() == 0 {
        assert(targets =~= seq![]);
    } else {
        let rest = list.drop_last();
        let last = list.last();
        assert(ascending(rest)) by {
            assert forall|i: int, j: int| 0 <= i < j < rest.len() implies text_before(
                (#[trigger] rest[i]).key_id,
                (#[trigger] rest[j]).key_id,
            ) by {
                assert(text_before(list[i].key_id, list[j].key_id));
            }
        }
        lemma_targets_in_key_order(rest, recursive);
        let before = targets_of(rest, recursive);
        if recursive || last.seed {
            assert(targets =~= before.push(last.key_id));
            assert(stands_at(list, last.key_id, list.len() - 1));
            assert forall|i: int| 0 <= i < before.len() implies text_before(
                #[trigger] before[i],
                last.key_id,
            ) by {
                assert(by_key(rest).dom().contains(before[i]));
                let j = choose|j: int| #[trigger] stands_at(rest, before[i], j);
                assert(stands_at(rest, before[i], j));
                assert(text_before(list[j].key_id, list[list.len() - 1].key_id));
            }
        } else {
            assert(targets =~= before);
        }
        assert forall|i: int| 0 <= i < targets.len() implies by_key(list).dom().contains(
            #[trigger] targets[i],
        ) by {
            if i < before.len() {
                assert(by_key(rest).dom().contains(before[i]));
                let j = choose|j: int| #[trigger] stands_at(rest, before[i], j);
                assert(stands_at(rest, before[i], j));
                assert(stands_at(list, targets[i], j));
            } else {
                assert(stands_at(list, targets[i], list.len() - 1));
            }
        }
    }
}

/// At every point of its course a crawl has the peers that it calls, and then those that it is yet
/// to call, in the order of their identifiers.
pub proof fn law_calls_are_in_key_order(states: Seq<CrawlView>, events: Seq<CrawlEvent>)
    requires
        is_course(states, events),
        states[0].asked.len() == 0,
        states[0].pending.len() == 0,
    ensures
        in_key_order(states.last().asked + states.last().pending),
    decreases events.len(),
{
    let end = states.last();
    if events.len() > 0 {
        let n = events.len() - 1;
        lemma_shorter_course(states, events);
        law_calls_are_in_key_order(states.drop_last(), events.drop_last());
        let before = states.drop_last().last();
        assert(crawl_wf(states[n + 1]));
        if events[n] is Known {
            lemma_targets_in_key_order(end.candidates, before.recursive);
            lemma_targets_in_key_order(end.candidates, true);
            let keys = if before.round < before.rounds {
                targets_of(end.candidates, before.recursive)
            } else {
                keys_of(end.candidates)
            };
            assert(end.asked + end.pending =~= keys);
        } else {
            let all = before.asked + before.pending;
            let m = before.asked.len() as int;
            assert(end.asked + end.pending =~= before.pending);
            assert forall|i: int, j: int| 0 <= i < j < before.pending.len() implies text_before(
                #[trigger] before.pending[i],
                #[trigger] before.pending[j],
            ) by {
                assert(text_before(all[m + i], all[m + j]));
            }
        }
    }
}

proof fn lemma_answers_are_calls(
    keys: Seq<Seq<char>>,
    outcomes: Seq<Outcome>,
    key: Seq<char>,
)
    requires
        keys.len() == outcomes.len(),
    ensures
        answers(keys, outcomes, key) <= times(keys, key),
        times(keys, key) == 0 ==> last_outcome(keys, outcomes, key) is None,
    decreases keys.len(),
{
    if keys.len() > 0 {
        lemma_answers_are_calls(keys.drop_last(), outcomes.drop_last(), key);
    }
}

/// The phase in which a call was made, and how it went, as it is noted.
pub open spec fn noted(call: Option<(Phase, Outcome)>) -> Option<Seq<char>> {
    match call {
        None => None,
        Some((_, Ok(true))) => None,
        Some((Phase::Querying, Ok(false))) => Some("peer returned no DHT data"@),
        Some((_, Ok(false))) => Some("DHT ping returned no response"@),
        Some((_, Err(PeerError::SignedAddressList))) => Some("get_signed_address_list failed"@),
        Some((_, Err(PeerError::FindNodes))) => Some("find_dht_nodes failed"@),
        Some((_, Err(PeerError::Ping))) => Some("DHT ping failed"@),
    }
}

/// A candidate that is new has no note.
proof fn lemma_new_without_note(
    known: Map<Seq<char>, CandidateView>,
    earlier: Seq<Seq<char>>,
    records: Seq<NodeRecordView>,
    seed: bool,
    now: u64,
    key: Seq<char>,
)
    requires
        !known.dom().contains(key),
        with_records(known, earlier, records, seed, now).0.dom().contains(key),
    ensures
        with_records(known, earlier, records, seed, now).0[key].last_error is None,
        with_records(known, earlier, records, seed, now).0[key].success_count == 0,
    decreases records.len(),
{
    let rest = records.drop_last();
    if with_records(known, earlier, rest, seed, now).0.dom().contains(key) {
        lemma_new_without_note(known, earlier, rest, seed, now, key);
    }
}

/// Whatever the course of a crawl, the successes of a candidate are the calls that it answered, as
/// far as the count goes; and what is noted of it is how its last call went.
pub proof fn law_successes_are_answers(
    seeds: Seq<NodeRecordView>,
    accepted: Seq<bool>,
    config: AppConfig,
    now: u64,
    states: Seq<CrawlView>,
    events: Seq<CrawlEvent>,
    key: Seq<char>,
)
    requires
        is_course(states, events),
        starts_crawl(states[0], seeds, accepted, config, now),
    ensures
        ({
            let known = by_key(states.last().candidates);
            let count = times_answered(states, events, key);
            if known.dom().contains(key) {
                &&& known[key].success_count == if count <= u32::MAX {
                    count
                } else {
                    u32::MAX as nat
                }
                &&& known[key].last_error == noted(last_call(states, events, key))
            } else {
                count == 0 && last_call(states, events, key) is None
            }
        }),
    decreases events.len(),
{
    if events.len() == 0 {
        let known = by_key(states[0].candidates);
        if known.dom().contains(key) {
            lemma_new_without_note(
                Map::empty(),
                states[0].rejected,
                accepted_of(seeds, accepted),
                true,
                now,
                key,
            );
        }
    } else {
        let n = events.len() - 1;
        let (s, e) = (states.drop_last(), events.drop_last());
        lemma_shorter_course(states, events);
        law_successes_are_answers(seeds, accepted, config, now, s, e, key);
        lemma_calls(seeds, accepted, config, now, s, e, key);
        let before = s.last();
        let known = by_key(before.candidates);
        let after = by_key(states.last().candidates);
        match events[n] {
            CrawlEvent::Known(records) => {
                if known.dom().contains(key) {
                    law_records_lose_nothing(
                        known,
                        before.rejected,
                        records,
                        false,
                        before.now,
                        key,
                    );
                } else if after.dom().contains(key) {
                    lemma_new_without_note(
                        known,
                        before.rejected,
                        records,
                        false,
                        before.now,
                        key,
                    );
                }
            },
            CrawlEvent::Called(outcomes) => {
                let note = silence(before.phase);
                law_calls_keep_candidates(known, before.asked, outcomes, note, key);
                lemma_answers_are_calls(before.asked, outcomes, key);
                if known.dom().contains(key) {
                    law_successes_add_up(known, before.asked, outcomes, note, key);
                    law_last_call_is_noted(known, before.asked, outcomes, note, key);
                }
            },
        }
    }
}

/// The peer answered whatever it was called for.
pub open spec fn always_answers(
    states: Seq<CrawlView>,
    events: Seq<CrawlEvent>,
    key: Seq<char>,
) -> bool {
    forall|i: int, j: int|
        #![trigger events[i], states[i].asked[j]]
        0 <= i < events.len() && events[i] is Called && 0 <= j < states[i].asked.len()
            && states[i].asked[j] == key ==> events[i]->Called_0[j] == Ok::<bool, PeerError>(true)
}

proof fn lemma_all_calls_answered(
    keys: Seq<Seq<char>>,
    outcomes: Seq<Outcome>,
    key: Seq<char>,
)
    requires
        keys.len() == outcomes.len(),
        forall|j: int|
            0 <= j < keys.len() && #[trigger] keys[j] == key ==> outcomes[j] == Ok::<
                bool,
                PeerError,
            >(true),
    ensures
        answers(keys, outcomes, key) == times(keys, key),
    decreases keys.len(),
{
    if keys.len() > 0 {
        let (rest, before) = (keys.drop_last(), outcomes.drop_last());
        assert forall|j: int| 0 <= j < rest.len() && #[trigger] rest[j] == key implies before[j]
            == Ok::<bool, PeerError>(true) by {
            assert(keys[j] == key);
        }
        lemma_all_calls_answered(rest, before, key);
        assert(keys[keys.len() - 1] == keys.last());
    }
}

proof fn lemma_all_answered(states: Seq<CrawlView>, events: Seq<CrawlEvent>, key: Seq<char>)
    requires
        is_course(states, events),
        always_answers(states, events, key),
    ensures
        times_answered(states, events, key) == times_called(
            states,
            events,
            Phase::Querying,
            key,
        ) + times_called(states, events, Phase::Pinging, key),
    decreases events.len(),
{
    if events.len() > 0 {
        let n = events.len() - 1;
        let (s, e) = (states.drop_last(), events.drop_last());
        lemma_shorter_course(states, events);
        assert(always_answers(s, e, key)) by {
            assert forall|i: int, j: int|
                #![trigger e[i], s[i].asked[j]]
                0 <= i < e.len() && e[i] is Called && 0 <= j < s[i].asked.len() && s[i].asked[j]
                    == key implies e[i]->Called_0[j] == Ok::<bool, PeerError>(true) by {
                assert(events[i] is Called && states[i].asked[j] == key);
            }
        }
        lemma_all_answered(s, e, key);
        if let CrawlEvent::Called(outcomes) = events[n] {
            let asked = states[n].asked;
            assert forall|j: int| 0 <= j < asked.len() && #[trigger] asked[j] == key implies
                outcomes[j] == Ok::<bool, PeerError>(true) by {
                assert(events[n] is Called && states[n].asked[j] == key);
            }
            lemma_all_calls_answered(asked, outcomes, key);
        }
    }
}

/// A seed node that the network took and that answers every call ends the crawl with one success
/// for each round and one for the ping, as far as the count goes, and with no error.
pub proof fn law_responsive_seed_succeeds_every_time(
    seeds: Seq<NodeRecordView>,
    accepted: Seq<bool>,
    config: AppConfig,
    now: u64,
    states: Seq<CrawlView>,
    events: Seq<CrawlEvent>,
    key: Seq<char>,
)
    requires
        is_course(states, events),
        starts_crawl(states[0], seeds, accepted, config, now),
        states.last().phase is Finished,
        is_among(accepted_of(seeds, accepted), key),
        always_answers(states, events, key),
    ensures
        ({
            let known = by_key(states.last().candidates);
            &&& known.dom().contains(key)
            &&& known[key].success_count == if config.crawl_rounds < u32::MAX {
                config.crawl_rounds + 1
            } else {
                u32::MAX as int
            }
        }),
{
    law_all_rounds_are_run(seeds, accepted, config, now, states, events, key);
    lemma_seed_is_always_known(seeds, accepted, config, now, states, events, key);
    law_each_candidate_is_pinged_once(seeds, accepted, config, now, states, events, key);
    lemma_all_answered(states, events, key);
    law_successes_are_answers(seeds, accepted, config, now, states, events, key);
}

/// After a recording a node is as the last record on it says, and else as it was. It was seen at
/// the time of the recording if there is a record on it; one that is new was first seen then.
pub proof fn law_last_record_counts(
    known: Map<Seq<char>, CandidateView>,
    earlier: Seq<Seq<char>>,
    records: Seq<NodeRecordView>,
    seed: bool,
    now: u64,
    key: Seq<char>,
)
    requires
        with_records(known, earlier, records, seed, now).1 is None,
    ensures
        ({
            let after = with_records(known, earlier, records, seed, now).0;
            match last_record(records, key) {
                Some(record) => {
                    &&& after.dom().contains(key)
                    &&& after[key].node == record.node
                    &&& after[key].public_key == record.public_key
                    &&& after[key].signature == record.signature
                    &&& after[key].last_seen_at == now
                    &&& after[key].first_seen_at == if known.dom().contains(key) {
                        known[key].first_seen_at
                    } else {
                        now
                    }
                    &&& !known.dom().contains(key) ==> after[key].key_id == key
                },
                None => {
                    &&& after.dom().contains(key) <==> known.dom().contains(key)
                    &&& known.dom().contains(key) ==> after[key] == known[key]
                },
            }
        }),
    decreases records.len(),
{
    if records.len() > 0 {
        law_last_record_counts(known, earlier, records.drop_last(), seed, now, key);
        assert(records.last().key_id is Ok);
    }
}

/// Whatever the course of a crawl, its candidates are the nodes that it was told of, by the seed
/// nodes that the network took or by the network; each is as it was told of last, and was seen when
/// the build began.
pub proof fn law_candidates_are_as_told_last(
    seeds: Seq<NodeRecordView>,
    accepted: Seq<bool>,
    config: AppConfig,
    now: u64,
    states: Seq<CrawlView>,
    events: Seq<CrawlEvent>,
    key: Seq<char>,
)
    requires
        is_course(states, events),
        starts_crawl(states[0], seeds, accepted, config, now),
    ensures
        ({
            let known = by_key(states.last().candidates);
            match last_told(accepted_of(seeds, accepted), events, key) {
                Some(record) => {
                    &&& known.dom().contains(key)
                    &&& known[key].node == record.node
                    &&& known[key].public_key == record.public_key
                    &&& known[key].signature == record.signature
                    &&& known[key].first_seen_at == now
                    &&& known[key].last_seen_at == now
                },
                None => !known.dom().contains(key),
            }
        }),
    decreases events.len(),
{
    let kept = accepted_of(seeds, accepted);
    if events.len() == 0 {
        law_last_record_counts(Map::empty(), states[0].rejected, kept, true, now, key);
    } else {
        let n = events.len() - 1;
        let (s, e) = (states.drop_last(), events.drop_last());
        lemma_shorter_course(states, events);
        law_candidates_are_as_told_last(seeds, accepted, config, now, s, e, key);
        lemma_calls(seeds, accepted, config, now, s, e, key);
        let before = s.last();
        let known = by_key(before.candidates);
        match events[n] {
            CrawlEvent::Known(records) => {
                law_last_record_counts(
                    known,
                    before.rejected,
                    records,
                    false,
                    before.now,
                    key,
                );
            },
            CrawlEvent::Called(outcomes) => {
                law_calls_keep_candidates(
                    known,
                    before.asked,
                    outcomes,
                    silence(before.phase),
                    key,
                );
            },
        }
    }
}

/// A node is a candidate exactly if the network took it from the seed configuration or told of it.
pub proof fn law_every_node_told_of_is_a_candidate(
    seeds: Seq<NodeRecordView>,
    accepted: Seq<bool>,
    config: AppConfig,
    now: u64,
    states: Seq<CrawlView>,
    events: Seq<CrawlEvent>,
    key: Seq<char>,
)
    requires
        is_course(states, events),
        starts_crawl(states[0], seeds, accepted, config, now),
    ensures
        by_key(states.last().candidates).dom().contains(key) <==> times_seen(
            accepted_of(seeds, accepted),
            key,
        ) > 0 || times_told(events, key) > 0,
{
    lemma_sightings(seeds, accepted, states, events, key);
}

} // verus!
