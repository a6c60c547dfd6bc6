//! The crawl, decision by decision: which peers are called next, and what their answers mean.

use crate::candidate::{
    by_key, candidate_keys, check_records, first_error, keys_of, law_only_seeds_are_marked,
    law_recorded_nodes_are_known, law_records_lose_nothing, lemma_by_key_at,
    lemma_recording_stops_at_first_error, lemma_times_contains, query_targets, record_error,
    record_nodes, record_outcome, record_views, saturated, seeds_of, stands_at, targets_of,
    text_views, times, well_formed, with_outcome, with_records, CandidateTable, CandidateView,
    NodeRecord, NodeRecordView, Outcome, PeerError,
};
use crate::config::AppConfig;
use crate::error::{BuildError, ErrorView};
use crate::text::{law_text_order_is_strict, text_before};
use vstd::prelude::*;
use vstd::string::*;

verus! {

/// What a call to a peer came back with.
#[derive(Clone, Copy, Debug, PartialEq, Eq, Structural)]
pub enum PeerReply {
    /// Nothing, in the time that the peer had.
    TimedOut,
    Failed,
    /// Whether the peer had something to say.
    Answered(bool),
}

/// What is done with a peer once it was asked for its signed addresses.
#[derive(Clone, Copy, Debug, PartialEq, Eq)]
pub enum ExpandStep {
    /// It is asked for the nodes that it knows. `signed` says whether it gave its addresses.
    FindNodes { signed: bool },
    /// Nothing more.
    Done(Outcome),
}

/// What is done with a peer, by its reply on its signed addresses: a failure ends the query.
pub open spec fn signed_list_step(reply: PeerReply) -> ExpandStep {
    match reply {
        PeerReply::Failed => ExpandStep::Done(Err(PeerError::SignedAddressList)),
        PeerReply::TimedOut => ExpandStep::FindNodes { signed: false },
        PeerReply::Answered(signed) => ExpandStep::FindNodes { signed },
    }
}

/// How a query went, by the reply on the nodes that the peer knows.
pub open spec fn find_nodes_outcome(signed: bool, reply: PeerReply) -> Outcome {
    match reply {
        PeerReply::Failed => Err(PeerError::FindNodes),
        PeerReply::TimedOut => Ok(signed),
        PeerReply::Answered(found) => Ok(signed || found),
    }
}

/// How a ping went.
pub open spec fn ping_outcome(reply: PeerReply) -> Outcome {
    match reply {
        PeerReply::Failed => Err(PeerError::Ping),
        PeerReply::TimedOut => Ok(false),
        PeerReply::Answered(alive) => Ok(alive),
    }
}

/// How a whole query went, by the replies on the signed addresses and on the nodes that the peer
/// knows. The second question is put only where the first did not end the query.
pub open spec fn query_outcome(signed: PeerReply, found: PeerReply) -> Outcome {
    match signed_list_step(signed) {
        ExpandStep::Done(outcome) => outcome,
        ExpandStep::FindNodes { signed } => find_nodes_outcome(signed, found),
    }
}

/// A query counts as answered exactly if neither question failed and the peer had something to say
/// to one of them; it counts as failed at the first question that did. That a question ran out of
/// time is no failure.
pub proof fn law_query_is_answered_by_either_reply(signed: PeerReply, found: PeerReply)
    ensures
        query_outcome(signed, found) == Ok::<bool, PeerError>(true) <==> {
            &&& signed != PeerReply::Failed
            &&& found != PeerReply::Failed
            &&& signed == PeerReply::Answered(true) || found == PeerReply::Answered(true)
        },
        query_outcome(signed, found) == Err::<bool, PeerError>(PeerError::SignedAddressList) <==>
            signed == PeerReply::Failed,
        query_outcome(signed, found) == Err::<bool, PeerError>(PeerError::FindNodes) <==>
            signed != PeerReply::Failed && found == PeerReply::Failed,
        query_outcome(signed, found) != Err::<bool, PeerError>(PeerError::Ping),
        signed_list_step(signed) is FindNodes <==> signed != PeerReply::Failed,
{
}

/// A ping counts as answered exactly if the peer said that it is alive, and as failed exactly if
/// the call failed.
pub proof fn law_ping_is_answered_by_a_live_peer(reply: PeerReply)
    ensures
        ping_outcome(reply) == Ok::<bool, PeerError>(true) <==> reply == PeerReply::Answered(true),
        ping_outcome(reply) is Err <==> reply == PeerReply::Failed,
        ping_outcome(reply) is Err ==> ping_outcome(reply)->Err_0 == PeerError::Ping,
{
}

/// What is done with a peer, by its reply on its signed addresses: a failure ends the query.
pub fn after_signed_list(reply: PeerReply) -> (r: ExpandStep)
    ensures
        r == signed_list_step(reply),
{
    match reply {
        PeerReply::Failed => ExpandStep::Done(Err(PeerError::SignedAddressList)),
        PeerReply::TimedOut => ExpandStep::FindNodes { signed: false },
        PeerReply::Answered(signed) => ExpandStep::FindNodes { signed },
    }
}

/// How a query went, by the reply on the nodes that the peer knows: the peer has answered if it
/// had something to say to either question.
pub fn after_find_nodes(signed: bool, reply: PeerReply) -> (r: Outcome)
    ensures
        r == find_nodes_outcome(signed, reply),
{
    match reply {
        PeerReply::Failed => Err(PeerError::FindNodes),
        PeerReply::TimedOut => Ok(signed),
        PeerReply::Answered(found) => Ok(signed || found),
    }
}

/// How a ping went.
pub fn after_ping(reply: PeerReply) -> (r: Outcome)
    ensures
        r == ping_outcome(reply),
{
    match reply {
        PeerReply::Failed => Err(PeerError::Ping),
        PeerReply::TimedOut => Ok(false),
        PeerReply::Answered(alive) => Ok(alive),
    }
}

/// The network took one of the seed nodes.
pub open spec fn has_accepted(accepted: Seq<bool>) -> bool {
    accepted.contains(true)
}

/// One seed node that the network took is enough, wherever it stands and whatever became of the
/// others; without one there are not enough.
pub proof fn law_one_accepted_seed_is_enough(accepted: Seq<bool>, i: int)
    ensures
        0 <= i < accepted.len() && accepted[i] ==> has_accepted(accepted),
        (forall|j: int| 0 <= j < accepted.len() ==> !#[trigger] accepted[j]) ==> !has_accepted(
            accepted,
        ),
{
}

/// Whether the network took one of the seed nodes. A crawl has nowhere to start from otherwise.
pub fn require_accepted_seed(accepted: &Vec<bool>) -> (r: Result<(), BuildError>)
    ensures
        match r {
            Ok(_) => has_accepted(accepted@),
            Err(error) => !has_accepted(accepted@) && error@ == ErrorView::NoAcceptedSeeds,
        },
{
    let mut i: usize = 0;
    while i < accepted.len()
        invariant
            i <= accepted@.len(),
            forall|j: int| 0 <= j < i ==> !accepted@[j],
        decreases accepted@.len() - i,
    {
        if accepted[i] {
            assert(accepted@[i as int]);
            return Ok(());
        }
        i = i + 1;
    }
    Err(BuildError::NoAcceptedSeeds)
}

/// The seed nodes that the network took, in order: those whose flag is set.
pub open spec fn accepted_of(
    seeds: Seq<NodeRecordView>,
    accepted: Seq<bool>,
) -> Seq<NodeRecordView>
    decreases seeds.len(),
{
    if seeds.len() == 0 {
        seq![]
    } else {
        let kept = accepted_of(seeds.drop_last(), accepted.drop_last());
        if accepted.last() {
            kept.push(seeds.last())
        } else {
            kept
        }
    }
}

/// The identifiers of the seed nodes that the network did not take, in order.
pub open spec fn rejected_of(seeds: Seq<NodeRecordView>, accepted: Seq<bool>) -> Seq<Seq<char>>
    decreases seeds.len(),
{
    if seeds.len() == 0 {
        seq![]
    } else {
        let keys = rejected_of(seeds.drop_last(), accepted.drop_last());
        match seeds.last().key_id {
            Ok(key) => if accepted.last() {
                keys
            } else {
                keys.push(key)
            },
            Err(_) => keys,
        }
    }
}

/// The network took a seed node.
pub open spec fn was_accepted(
    seeds: Seq<NodeRecordView>,
    accepted: Seq<bool>,
    record: NodeRecordView,
) -> bool {
    exists|i: int| 0 <= i < seeds.len() && accepted[i] && #[trigger] seeds[i] == record
}

/// The seed nodes that a crawl starts from are those that the network took, and no others.
pub proof fn law_accepted_seeds_are_those_taken(
    seeds: Seq<NodeRecordView>,
    accepted: Seq<bool>,
    record: NodeRecordView,
)
    requires
        seeds.len() == accepted.len(),
    ensures
        accepted_of(seeds, accepted).contains(record) <==> was_accepted(seeds, accepted, record),
    decreases seeds.len(),
{
    if seeds.len() > 0 {
        let n = seeds.len() - 1;
        let (rest, flags) = (seeds.drop_last(), accepted.drop_last());
        let kept = accepted_of(rest, flags);
        let all = accepted_of(seeds, accepted);
        law_accepted_seeds_are_those_taken(rest, flags, record);
        if all.contains(record) {
            let k = choose|k: int| 0 <= k < all.len() && all[k] == record;
            if k < kept.len() {
                assert(kept[k] == record);
                let i = choose|i: int|
                    0 <= i < rest.len() && flags[i] && #[trigger] rest[i] == record;
                assert(accepted[i] && seeds[i] == record);
            } else {
                assert(accepted[n] && seeds[n] == record);
            }
        }
        if was_accepted(seeds, accepted, record) {
            let i = choose|i: int|
                0 <= i < seeds.len() && accepted[i] && #[trigger] seeds[i] == record;
            if i < n {
                assert(flags[i] && rest[i] == record);
                let k = choose|k: int| 0 <= k < kept.len() && kept[k] == record;
                assert(all[k] == record);
            } else {
                assert(all[kept.len() as int] == record);
            }
        }
    }
}

/// The seed nodes of two lists that the network took are those of the first and then those of the
/// second; of a single one, that one if its flag is set.
pub proof fn law_accepted_seeds_keep_their_order(
    seeds: Seq<NodeRecordView>,
    accepted: Seq<bool>,
    more: Seq<NodeRecordView>,
    flags: Seq<bool>,
    seed: NodeRecordView,
    flag: bool,
)
    requires
        seeds.len() == accepted.len(),
        more.len() == flags.len(),
    ensures
        accepted_of(seeds + more, accepted + flags) == accepted_of(seeds, accepted) + accepted_of(
            more,
            flags,
        ),
        accepted_of(seq![seed], seq![flag]) == if flag {
            seq![seed]
        } else {
            seq![]
        },
    decreases more.len(),
{
    reveal_with_fuel(accepted_of, 2);
    assert(seq![seed].drop_last() =~= seq![]);
    assert(Seq::<NodeRecordView>::empty().push(seed) =~= seq![seed]);
    if more.len() == 0 {
        assert(seeds + more =~= seeds);
        assert(accepted + flags =~= accepted);
        assert(accepted_of(seeds, accepted) + accepted_of(more, flags) =~= accepted_of(
            seeds,
            accepted,
        ));
    } else {
        let (rest, before) = (more.drop_last(), flags.drop_last());
        law_accepted_seeds_keep_their_order(seeds, accepted, rest, before, seed, flag);
        assert((seeds + more).drop_last() =~= seeds + rest);
        assert((accepted + flags).drop_last() =~= accepted + before);
        assert(accepted_of(seeds + more, accepted + flags) =~= accepted_of(seeds, accepted)
            + accepted_of(more, flags));
    }
}

/// The seed nodes that the network took, of which there has to be one. A flag stands for each
/// seed node.
pub fn accepted_seeds(seeds: Vec<NodeRecord>, accepted: &Vec<bool>) -> (r: Result<
    Vec<NodeRecord>,
    BuildError,
>)
    ensures
        match r {
            Ok(kept) => {
                &&& seeds@.len() == accepted@.len()
                &&& has_accepted(accepted@)
                &&& record_views(kept@) == accepted_of(record_views(seeds@), accepted@)
                &&& kept@.len() > 0
            },
            Err(error) => {
                &&& seeds@.len() != accepted@.len() || !has_accepted(accepted@)
                &&& error@ == ErrorView::NoAcceptedSeeds
            },
        },
{
    let count: usize = accepted.len();
    if seeds.len() != count {
        return Err(BuildError::NoAcceptedSeeds);
    }
    match require_accepted_seed(accepted) {
        Ok(_) => {},
        Err(error) => {
            return Err(error);
        },
    }
    let ghost views = record_views(seeds@);
    let mut r: Vec<NodeRecord> = Vec::new();
    let mut i: usize = 0;
    proof {
        assert(record_views(r@) =~= seq![]);
        assert(views.take(0) =~= seq![]);
    }
    for record in it: seeds
        invariant
            i == it.index(),
            views == record_views(it.seq()),
            views == record_views(seeds@),
            views.len() == accepted@.len(),
            count == accepted@.len(),
            record_views(r@) == accepted_of(views.take(i as int), accepted@.take(i as int)),
    {
        let ghost before = r@;
        proof {
            assert(views.take(i + 1).drop_last() =~= views.take(i as int));
            assert(accepted@.take(i + 1).drop_last() =~= accepted@.take(i as int));
            assert(views.take(i + 1).last() == record@);
        }
        if accepted[i] {
            r.push(record);
            assert(record_views(r@) =~= record_views(before).push(record@));
        }
        i = i + 1;
    }
    proof {
        assert(views.take(i as int) =~= views);
        assert(accepted@.take(i as int) =~= accepted@);
        let j = choose|j: int| 0 <= j < accepted@.len() && accepted@[j] == true;
        assert(accepted@[j] && views[j] == views[j]);
        law_accepted_seeds_are_those_taken(views, accepted@, views[j]);
        assert(record_views(r@).len() == r@.len());
    }
    Ok(r)
}

/// The identifiers of the seed nodes that the network did not take. A flag stands for each seed
/// node.
pub fn rejected_keys(seeds: &Vec<NodeRecord>, accepted: &Vec<bool>) -> (r: Vec<String>)
    requires
        seeds@.len() == accepted@.len(),
    ensures
        text_views(r@) == rejected_of(record_views(seeds@), accepted@),
{
    let ghost views = record_views(seeds@);
    let mut r: Vec<String> = Vec::new();
    let mut i: usize = 0;
    proof {
        assert(text_views(r@) =~= seq![]);
        assert(views.take(0) =~= seq![]);
    }
    while i < seeds.len()
        invariant
            i <= seeds@.len(),
            seeds@.len() == accepted@.len(),
            views == record_views(seeds@),
            text_views(r@) == rejected_of(views.take(i as int), accepted@.take(i as int)),
        decreases seeds@.len() - i,
    {
        let ghost before = r@;
        proof {
            assert(views.take(i + 1).drop_last() =~= views.take(i as int));
            assert(accepted@.take(i + 1).drop_last() =~= accepted@.take(i as int));
            assert(views.take(i + 1).last() == seeds@[i as int]@);
        }
        if !accepted[i] {
            if let Ok(key) = &seeds[i].key_id {
                r.push(key.clone());
                assert(text_views(r@) =~= text_views(before).push(key@));
            }
        }
        i = i + 1;
    }
    proof {
        assert(views.take(i as int) =~= views);
        assert(accepted@.take(i as int) =~= accepted@);
    }
    r
}

/// Where all seed nodes can be recorded, those that the network took can be.
proof fn lemma_accepted_can_be_recorded(seeds: Seq<NodeRecordView>, accepted: Seq<bool>)
    requires
        seeds.len() == accepted.len(),
        first_error(seeds) is None,
    ensures
        first_error(accepted_of(seeds, accepted)) is None,
    decreases seeds.len(),
{
    if seeds.len() > 0 {
        let kept = accepted_of(seeds.drop_last(), accepted.drop_last());
        lemma_accepted_can_be_recorded(seeds.drop_last(), accepted.drop_last());
        assert(kept.push(seeds.last()).drop_last() =~= kept);
    }
}

/// What a crawl is at.
#[derive(Clone, Copy, Debug, PartialEq, Eq, Structural)]
pub enum Phase {
    /// It reads the nodes that the network knows.
    Collecting,
    /// It queries peers.
    Querying,
    /// It pings peers.
    Pinging,
    Finished,
}

/// What is to be done next.
#[derive(Debug)]
pub enum CrawlAction {
    /// Read the nodes that the network knows.
    ReadKnown,
    /// Query these peers.
    Query(Vec<String>),
    /// Ping these peers.
    Ping(Vec<String>),
    /// Nothing.
    Finish,
}

/// A crawl: rounds of queries, each followed by a look at the nodes that the network knows by
/// then, and at last a ping to each candidate.
#[derive(Debug)]
pub struct Crawl {
    candidates: CandidateTable,
    rejected: Vec<String>,
    now: u64,
    rounds: usize,
    round: usize,
    recursive: bool,
    workers: usize,
    phase: Phase,
    asked: Vec<String>,
    pending: Vec<String>,
}

/// What a `Crawl` holds.
pub struct CrawlView {
    pub candidates: Seq<CandidateView>,
    /// The identifiers of the seed nodes that the network did not take.
    pub rejected: Seq<Seq<char>>,
    /// When the build began.
    pub now: u64,
    /// How many rounds there are.
    pub rounds: usize,
    /// How many of them have begun.
    pub round: usize,
    /// Whether all candidates are queried, and not the seed nodes alone.
    pub recursive: bool,
    /// How many peers are called at a time.
    pub workers: usize,
    pub phase: Phase,
    /// The peers that are being called.
    pub asked: Seq<Seq<char>>,
    /// The peers that are yet to be called.
    pub pending: Seq<Seq<char>>,
}

impl View for Crawl {
    type V = CrawlView;

    closed spec fn view(&self) -> CrawlView {
        CrawlView {
            candidates: self.candidates@,
            rejected: text_views(self.rejected@),
            now: self.now,
            rounds: self.rounds,
            round: self.round,
            recursive: self.recursive,
            workers: self.workers,
            phase: self.phase,
            asked: text_views(self.asked@),
            pending: text_views(self.pending@),
        }
    }
}

/// Peers are being called.
pub open spec fn calling(phase: Phase) -> bool {
    phase is Querying || phase is Pinging
}

/// How many of `n` peers are called at a time.
pub open spec fn batch_size(n: nat, workers: nat) -> nat {
    if n < workers {
        n
    } else {
        workers
    }
}

/// Where a crawl is that has the peers `pending` to call in this phase.
pub open spec fn calls(
    crawl: CrawlView,
    round: usize,
    phase: Phase,
    pending: Seq<Seq<char>>,
) -> CrawlView {
    let n = batch_size(pending.len(), crawl.workers as nat) as int;
    CrawlView {
        round,
        phase: if pending.len() > 0 {
            phase
        } else if phase is Querying {
            Phase::Collecting
        } else {
            Phase::Finished
        },
        asked: pending.take(n),
        pending: pending.skip(n),
        ..crawl
    }
}

/// Where a crawl is once it has recorded the nodes that the network knows: in the next round, or
/// at the pings where all rounds are over.
pub open spec fn after_collecting(crawl: CrawlView) -> CrawlView {
    if crawl.round < crawl.rounds {
        calls(
            crawl,
            (crawl.round + 1) as usize,
            Phase::Querying,
            targets_of(crawl.candidates, crawl.recursive),
        )
    } else {
        calls(crawl, crawl.round, Phase::Pinging, keys_of(crawl.candidates))
    }
}

/// What is noted of a peer that had nothing to say.
pub open spec fn silence(phase: Phase) -> Seq<char> {
    if phase is Querying {
        "peer returned no DHT data"@
    } else {
        "DHT ping returned no response"@
    }
}

/// What is known once peers were called, one after the other.
pub open spec fn with_outcomes(
    known: Map<Seq<char>, CandidateView>,
    keys: Seq<Seq<char>>,
    outcomes: Seq<Outcome>,
    silence: Seq<char>,
) -> Map<Seq<char>, CandidateView>
    decreases keys.len(),
{
    if keys.len() == 0 {
        known
    } else {
        with_outcome(
            with_outcomes(known, keys.drop_last(), outcomes.drop_last(), silence),
            keys.last(),
            outcomes.last(),
            silence,
        )
    }
}

/// How far a phase is from the end of a round.
pub open spec fn phase_rank(phase: Phase) -> int {
    match phase {
        Phase::Querying => 3,
        Phase::Collecting => 2,
        Phase::Pinging => 1,
        Phase::Finished => 0,
    }
}

/// A crawl is nearer to its end: it has fewer rounds before it, or is further in the round, or
/// has fewer peers to call.
pub open spec fn nearer_to_end(before: CrawlView, after: CrawlView) -> bool {
    let (a, b) = (before.rounds - before.round, after.rounds - after.round);
    let (p, q) = (phase_rank(before.phase), phase_rank(after.phase));
    ||| 0 <= b < a
    ||| a == b && 0 <= q < p
    ||| a == b && p == q && after.pending.len() < before.pending.len()
}

/// What a crawl is told.
pub enum CrawlEvent {
    /// The nodes that the network knows.
    Known(Seq<NodeRecordView>),
    /// How the calls to the peers went that were being called, in their order.
    Called(Seq<Outcome>),
}

/// `event` brings a crawl from `before` to `after`.
pub open spec fn takes_step(before: CrawlView, event: CrawlEvent, after: CrawlView) -> bool {
    let changed = CrawlView { candidates: after.candidates, ..before };
    match event {
        CrawlEvent::Known(records) => {
            let (known, wrong) = with_records(
                by_key(before.candidates),
                before.rejected,
                records,
                false,
                before.now,
            );
            &&& before.phase is Collecting
            &&& wrong is None
            &&& by_key(after.candidates) == known
            &&& after == after_collecting(changed)
        },
        CrawlEvent::Called(outcomes) => {
            &&& calling(before.phase)
            &&& outcomes.len() == before.asked.len()
            &&& keys_of(after.candidates) == keys_of(before.candidates)
            &&& by_key(after.candidates) == with_outcomes(
                by_key(before.candidates),
                before.asked,
                outcomes,
                silence(before.phase),
            )
            &&& after == calls(changed, changed.round, changed.phase, changed.pending)
        },
    }
}

/// A crawl begins with what those of the seed nodes tell that the network took. Of the others it
/// knows that they are seed nodes, should the network tell of them.
pub open spec fn begins_with(
    crawl: CrawlView,
    seeds: Seq<NodeRecordView>,
    accepted: Seq<bool>,
) -> bool {
    &&& crawl.phase is Collecting
    &&& seeds.len() == accepted.len()
    &&& first_error(seeds) is None
    &&& crawl.rejected == rejected_of(seeds, accepted)
    &&& with_records(
        Map::empty(),
        crawl.rejected,
        accepted_of(seeds, accepted),
        true,
        crawl.now,
    ) == (by_key(crawl.candidates), None::<ErrorView>)
}

/// Where a crawl is that has just been started with these settings.
pub open spec fn starts_crawl(
    crawl: CrawlView,
    seeds: Seq<NodeRecordView>,
    accepted: Seq<bool>,
    config: AppConfig,
    now: u64,
) -> bool {
    &&& begins_with(crawl, seeds, accepted)
    &&& crawl == (CrawlView {
        candidates: crawl.candidates,
        rejected: crawl.rejected,
        now,
        rounds: config.crawl_rounds,
        round: 0,
        recursive: config.recursive_crawl,
        workers: if config.workers == 0 {
            1
        } else {
            config.workers
        },
        phase: Phase::Collecting,
        asked: seq![],
        pending: seq![],
    })
}

/// What is to be done next where a crawl is.
pub open spec fn action_fits(action: CrawlAction, crawl: CrawlView) -> bool {
    match crawl.phase {
        Phase::Collecting => action is ReadKnown,
        Phase::Querying => action matches CrawlAction::Query(keys) && text_views(keys@)
            == crawl.asked,
        Phase::Pinging => action matches CrawlAction::Ping(keys) && text_views(keys@)
            == crawl.asked,
        Phase::Finished => action is Finish,
    }
}

/// What a crawl asks for is what brings it on: nodes where it asks for nodes, an outcome for each
/// of the peers where it asks for calls. A peer that is silent is noted as one that was queried
/// where it asks for queries, and as one that was pinged where it asks for pings; and where it asks
/// for nothing, nothing brings it on.
pub proof fn law_crawl_goes_on_with_what_it_asks_for(
    action: CrawlAction,
    before: CrawlView,
    event: CrawlEvent,
    after: CrawlView,
)
    requires
        crawl_wf(before),
        action_fits(action, before),
        takes_step(before, event, after),
    ensures
        !(action is Finish),
        action is ReadKnown <==> event is Known,
        action matches CrawlAction::Query(keys) ==> {
            &&& event is Called
            &&& keys@.len() == before.asked.len() == event->Called_0.len()
            &&& forall|i: int| 0 <= i < keys@.len() ==> (#[trigger] keys@[i])@ == before.asked[i]
            &&& silence(before.phase) == "peer returned no DHT data"@
        },
        action matches CrawlAction::Ping(keys) ==> {
            &&& event is Called
            &&& keys@.len() == before.asked.len() == event->Called_0.len()
            &&& forall|i: int| 0 <= i < keys@.len() ==> (#[trigger] keys@[i])@ == before.asked[i]
            &&& silence(before.phase) == "DHT ping returned no response"@
        },
{
    if let CrawlAction::Query(keys) = action {
        assert(text_views(keys@).len() == keys@.len());
        assert forall|i: int| 0 <= i < keys@.len() implies (#[trigger] keys@[i])@
            == before.asked[i] by {
            assert(text_views(keys@)[i] == keys@[i]@);
        }
    }
    if let CrawlAction::Ping(keys) = action {
        assert(text_views(keys@).len() == keys@.len());
        assert forall|i: int| 0 <= i < keys@.len() implies (#[trigger] keys@[i])@
            == before.asked[i] by {
            assert(text_views(keys@)[i] == keys@[i]@);
        }
    }
}

/// Every step of a crawl is one towards its end: the rounds that are left, else the way through the
/// round, else the peers that are left grow fewer, so that no crawl goes on for ever.
pub proof fn law_every_step_is_towards_the_end(
    before: CrawlView,
    event: CrawlEvent,
    after: CrawlView,
)
    requires
        crawl_wf(before),
        crawl_wf(after),
        takes_step(before, event, after),
    ensures
        ({
            let left = |crawl: CrawlView| crawl.rounds - crawl.round;
            let way = |crawl: CrawlView|
                match crawl.phase {
                    Phase::Querying => 3int,
                    Phase::Collecting => 2int,
                    Phase::Pinging => 1int,
                    Phase::Finished => 0int,
                };
            decreases_to!(left(before), way(before), before.pending.len() =>
                left(after), way(after), after.pending.len())
        }),
{
}

/// What holds of every crawl.
pub open spec fn crawl_wf(crawl: CrawlView) -> bool {
    &&& well_formed(crawl.candidates)
    &&& crawl.round <= crawl.rounds
    &&& crawl.workers >= 1
    &&& crawl.asked.len() <= crawl.workers
    &&& calling(crawl.phase) <==> crawl.asked.len() > 0
    &&& !calling(crawl.phase) ==> crawl.pending.len() == 0
}

fn copy_texts(texts: &Vec<String>) -> (r: Vec<String>)
    ensures
        text_views(r@) == text_views(texts@),
{
    let mut r: Vec<String> = Vec::new();
    let mut i: usize = 0;
    while i < texts.len()
        invariant
            i <= texts@.len(),
            r@ =~= texts@.take(i as int),
        decreases texts@.len() - i,
    {
        r.push(texts[i].clone());
        i = i + 1;
    }
    assert(r@ =~= texts@);
    r
}

proof fn lemma_empty_table(list: Seq<CandidateView>)
    requires
        list.len() == 0,
    ensures
        by_key(list) == Map::<Seq<char>, CandidateView>::empty(),
{
    assert(by_key(list) =~= Map::<Seq<char>, CandidateView>::empty());
}

impl Crawl {
    /// What holds of every crawl.
    pub open spec fn wf(&self) -> bool {
        crawl_wf(self@)
    }

    /// Begins a crawl from those of the seed nodes that the network took; the others count as seed
    /// nodes where the network tells of them. The settings give the crawl its rounds and how many
    /// peers it calls at a time, which is one at least.
    pub fn start(
        seeds: Vec<NodeRecord>,
        accepted: &Vec<bool>,
        config: &AppConfig,
        now: u64,
    ) -> (r: Result<Crawl, BuildError>)
        ensures
            match r {
                Ok(crawl) => {
                    &&& crawl.wf()
                    &&& has_accepted(accepted@)
                    &&& starts_crawl(crawl@, record_views(seeds@), accepted@, *config, now)
                },
                Err(error) => if seeds@.len() != accepted@.len() || !has_accepted(accepted@) {
                    error@ == ErrorView::NoAcceptedSeeds
                } else {
                    first_error(record_views(seeds@)) == Some(error@)
                },
            },
    {
        let ghost views = record_views(seeds@);
        let checked = check_records(&seeds);
        let rejected = if seeds.len() == accepted.len() {
            rejected_keys(&seeds, accepted)
        } else {
            Vec::new()
        };
        let kept = match accepted_seeds(seeds, accepted) {
            Ok(kept) => kept,
            Err(error) => {
                return Err(error);
            },
        };
        if let Err(error) = checked {
            return Err(error);
        }
        let mut candidates = CandidateTable::new();
        proof {
            lemma_empty_table(candidates@);
            lemma_accepted_can_be_recorded(views, accepted@);
            lemma_recording_stops_at_first_error(
                Map::empty(),
                text_views(rejected@),
                record_views(kept@),
                true,
                now,
            );
        }
        match record_nodes(&mut candidates, &rejected, kept, true, now) {
            Ok(_) => {},
            Err(error) => {
                assert(false);
                return Err(error);
            },
        }
        let r = Crawl {
            candidates,
            rejected,
            now,
            rounds: config.crawl_rounds,
            round: 0,
            recursive: config.recursive_crawl,
            workers: if config.workers == 0 {
                1
            } else {
                config.workers
            },
            phase: Phase::Collecting,
            asked: Vec::new(),
            pending: Vec::new(),
        };
        assert(r@.asked =~= seq![]);
        assert(r@.pending =~= seq![]);
        Ok(r)
    }

    /// The candidates of the crawl.
    pub fn candidates(&self) -> (r: &CandidateTable)
        requires
            self.wf(),
        ensures
            r@ == self@.candidates,
            r.wf(),
    {
        &self.candidates
    }

    /// What is to be done next.
    pub fn action(&self) -> (r: CrawlAction)
        ensures
            action_fits(r, self@),
    {
        match self.phase {
            Phase::Collecting => CrawlAction::ReadKnown,
            Phase::Querying => CrawlAction::Query(copy_texts(&self.asked)),
            Phase::Pinging => CrawlAction::Ping(copy_texts(&self.asked)),
            Phase::Finished => CrawlAction::Finish,
        }
    }

    /// Calls the next of the peers that are yet to be called.
    fn call_next(&mut self, phase: Phase, pending: Vec<String>)
        requires
            old(self)@.workers >= 1,
            calling(phase),
        ensures
            final(self)@ == calls(
                old(self)@,
                old(self)@.round,
                phase,
                text_views(pending@),
            ),
    {
        let ghost keys = text_views(pending@);
        let mut asked = pending;
        let n: usize = if asked.len() < self.workers {
            asked.len()
        } else {
            self.workers
        };
        self.phase = if asked.len() > 0 {
            phase
        } else {
            match phase {
                Phase::Querying => Phase::Collecting,
                _ => Phase::Finished,
            }
        };
        let rest = asked.split_off(n);
        assert(text_views(asked@) =~= keys.take(n as int));
        assert(text_views(rest@) =~= keys.skip(n as int));
        self.asked = asked;
        self.pending = rest;
    }

    /// Records the nodes that the network knows by now, and goes on.
    pub fn known_nodes(&mut self, nodes: Vec<NodeRecord>) -> (r: Result<(), BuildError>)
        requires
            old(self).wf(),
        ensures
            final(self).wf(),
            !(old(self)@.phase is Collecting) ==> {
                &&& r matches Err(error)
                &&& error@ == ErrorView::OutOfTurn
                &&& *final(self) == *old(self)
            },
            old(self)@.phase is Collecting ==> {
                let (known, wrong) = with_records(
                    by_key(old(self)@.candidates),
                    old(self)@.rejected,
                    record_views(nodes@),
                    false,
                    old(self)@.now,
                );
                match r {
                    Ok(_) => {
                        &&& wrong is None
                        &&& takes_step(
                            old(self)@,
                            CrawlEvent::Known(record_views(nodes@)),
                            final(self)@,
                        )
                        &&& nearer_to_end(old(self)@, final(self)@)
                    },
                    Err(error) => {
                        &&& wrong == Some(error@)
                        &&& by_key(final(self)@.candidates) == known
                        &&& final(self)@ == (CrawlView {
                            candidates: final(self)@.candidates,
                            ..old(self)@
                        })
                    },
                }
            },
    {
        match self.phase {
            Phase::Collecting => {},
            _ => {
                return Err(BuildError::OutOfTurn);
            },
        }
        match record_nodes(&mut self.candidates, &self.rejected, nodes, false, self.now) {
            Ok(_) => {},
            Err(error) => {
                return Err(error);
            },
        }
        if self.round < self.rounds {
            self.round = self.round + 1;
            let targets = query_targets(&self.candidates, self.recursive);
            self.call_next(Phase::Querying, targets);
        } else {
            let targets = candidate_keys(&self.candidates);
            self.call_next(Phase::Pinging, targets);
        }
        Ok(())
    }

    /// Records how the calls to the peers went that were to be called, in their order, and goes
    /// on.
    pub fn outcomes(&mut self, outcomes: Vec<Outcome>) -> (r: Result<(), BuildError>)
        requires
            old(self).wf(),
        ensures
            final(self).wf(),
            match r {
                Ok(_) => {
                    &&& takes_step(old(self)@, CrawlEvent::Called(outcomes@), final(self)@)
                    &&& nearer_to_end(old(self)@, final(self)@)
                },
                Err(error) => {
                    &&& !calling(old(self)@.phase) || outcomes@.len() != old(self)@.asked.len()
                    &&& error@ == ErrorView::OutOfTurn
                    &&& *final(self) == *old(self)
                },
            },
    {
        let ghost before = self@;
        let phase = self.phase;
        let note: &str = match phase {
            Phase::Querying => "peer returned no DHT data",
            Phase::Pinging => "DHT ping returned no response",
            _ => {
                return Err(BuildError::OutOfTurn);
            },
        };
        if outcomes.len() != self.asked.len() {
            return Err(BuildError::OutOfTurn);
        }
        let mut i: usize = 0;
        proof {
            assert(before.asked.take(0) =~= seq![]);
            assert(outcomes@.take(0) =~= seq![]);
        }
        while i < outcomes.len()
            invariant
                i <= outcomes@.len(),
                outcomes@.len() == self.asked@.len(),
                note@ == silence(before.phase),
                before == old(self)@,
                before.asked == text_views(self.asked@),
                self@ == (CrawlView { candidates: self@.candidates, ..before }),
                well_formed(self@.candidates),
                keys_of(self@.candidates) == keys_of(before.candidates),
                by_key(self@.candidates) == with_outcomes(
                    by_key(before.candidates),
                    before.asked.take(i as int),
                    outcomes@.take(i as int),
                    silence(before.phase),
                ),
            decreases outcomes@.len() - i,
        {
            proof {
                assert(before.asked.take(i + 1).drop_last() =~= before.asked.take(i as int));
                assert(outcomes@.take(i + 1).drop_last() =~= outcomes@.take(i as int));
            }
            record_outcome(&mut self.candidates, self.asked[i].as_str(), outcomes[i], note);
            i = i + 1;
        }
        proof {
            assert(before.asked.take(i as int) =~= before.asked);
            assert(outcomes@.take(i as int) =~= outcomes@);
        }
        let pending = copy_texts(&self.pending);
        self.call_next(phase, pending);
        Ok(())
    }
}

/// The groups in which peers are called.
pub open spec fn batches(pending: Seq<Seq<char>>, workers: nat) -> Seq<Seq<Seq<char>>>
    decreases pending.len(),
{
    if pending.len() == 0 || workers == 0 {
        seq![]
    } else {
        let n = batch_size(pending.len(), workers) as int;
        seq![pending.take(n)] + batches(pending.skip(n), workers)
    }
}

/// The peers of a round are called in groups of at most as many as there are workers; each is
/// called once, in order.
pub proof fn law_each_peer_is_called_once(pending: Seq<Seq<char>>, workers: nat)
    requires
        workers >= 1,
    ensures
        batches(pending, workers).flatten() == pending,
        forall|i: int|
            0 <= i < batches(pending, workers).len() ==> 1 <= (#[trigger] batches(
                pending,
                workers,
            )[i]).len() <= workers,
    decreases pending.len(),
{
    if pending.len() > 0 {
        let n = batch_size(pending.len(), workers) as int;
        let first = seq![pending.take(n)];
        let rest = batches(pending.skip(n), workers);
        law_each_peer_is_called_once(pending.skip(n), workers);
        assert((first + rest).drop_first() =~= rest);
        assert(batches(pending, workers).flatten() =~= pending.take(n) + rest.flatten());
        assert(pending.take(n) + pending.skip(n) =~= pending);
    } else {
        assert(batches(pending, workers).flatten() =~= pending);
    }
}

/// The groups in which a crawl calls its peers are the batches of the peers that it has to call:
/// one is being called, and the rest are those of the peers that are yet to be called.
pub proof fn law_crawl_calls_in_batches(
    crawl: CrawlView,
    round: usize,
    phase: Phase,
    pending: Seq<Seq<char>>,
)
    requires
        crawl.workers >= 1,
        pending.len() > 0,
    ensures
        batches(pending, crawl.workers as nat) == seq![calls(crawl, round, phase, pending).asked]
            + batches(calls(crawl, round, phase, pending).pending, crawl.workers as nat),
{
}

/// It makes no difference how the calls are grouped: what is known after two groups is what is
/// known after one that holds the calls of both.
pub proof fn law_grouping_is_irrelevant(
    known: Map<Seq<char>, CandidateView>,
    keys: Seq<Seq<char>>,
    outcomes: Seq<Outcome>,
    more_keys: Seq<Seq<char>>,
    more_outcomes: Seq<Outcome>,
    silence: Seq<char>,
)
    requires
        keys.len() == outcomes.len(),
        more_keys.len() == more_outcomes.len(),
    ensures
        with_outcomes(
            with_outcomes(known, keys, outcomes, silence),
            more_keys,
            more_outcomes,
            silence,
        ) == with_outcomes(known, keys + more_keys, outcomes + more_outcomes, silence),
    decreases more_keys.len(),
{
    if more_keys.len() == 0 {
        assert(keys + more_keys =~= keys);
        assert(outcomes + more_outcomes =~= outcomes);
    } else {
        law_grouping_is_irrelevant(
            known,
            keys,
            outcomes,
            more_keys.drop_last(),
            more_outcomes.drop_last(),
            silence,
        );
        assert((keys + more_keys).drop_last() =~= keys + more_keys.drop_last());
        assert((outcomes + more_outcomes).drop_last() =~= outcomes + more_outcomes.drop_last());
    }
}

/// Calling peers neither loses a candidate nor finds one, and changes nothing of a candidate but
/// how it has answered. A success is never taken back.
pub proof fn law_calls_keep_candidates(
    known: Map<Seq<char>, CandidateView>,
    keys: Seq<Seq<char>>,
    outcomes: Seq<Outcome>,
    silence: Seq<char>,
    key: Seq<char>,
)
    ensures
        ({
            let after = with_outcomes(known, keys, outcomes, silence);
            &&& after.dom().contains(key) <==> known.dom().contains(key)
            &&& known.dom().contains(key) ==> {
                &&& after[key].success_count >= known[key].success_count
                &&& after[key] == CandidateView {
                    success_count: after[key].success_count,
                    last_error: after[key].last_error,
                    ..known[key]
                }
            }
        }),
    decreases keys.len(),
{
    if keys.len() > 0 {
        law_calls_keep_candidates(known, keys.drop_last(), outcomes.drop_last(), silence, key);
    }
}

/// A success is an answer: calls raise the count of a candidate only where it answered one.
pub proof fn law_only_answers_count(
    known: Map<Seq<char>, CandidateView>,
    keys: Seq<Seq<char>>,
    outcomes: Seq<Outcome>,
    silence: Seq<char>,
    key: Seq<char>,
)
    requires
        keys.len() == outcomes.len(),
        known.dom().contains(key),
        with_outcomes(known, keys, outcomes, silence)[key].success_count
            > known[key].success_count,
    ensures
        exists|j: int| #[trigger] answered_at(keys, outcomes, key, j),
    decreases keys.len(),
{
    let n = keys.len() - 1;
    let before = with_outcomes(known, keys.drop_last(), outcomes.drop_last(), silence);
    law_calls_keep_candidates(known, keys.drop_last(), outcomes.drop_last(), silence, key);
    if before[key].success_count > known[key].success_count {
        law_only_answers_count(known, keys.drop_last(), outcomes.drop_last(), silence, key);
        let j = choose|j: int| #[trigger]
            answered_at(keys.drop_last(), outcomes.drop_last(), key, j);
        assert(answered_at(keys, outcomes, key, j));
    } else {
        assert(answered_at(keys, outcomes, key, n));
    }
}

/// How many of the calls were to that peer and were answered.
pub open spec fn answers(keys: Seq<Seq<char>>, outcomes: Seq<Outcome>, key: Seq<char>) -> nat
    decreases keys.len(),
{
    if keys.len() == 0 {
        0
    } else {
        answers(keys.drop_last(), outcomes.drop_last(), key) + if keys.last() == key
            && outcomes.last() == Ok::<bool, PeerError>(true) {
            1nat
        } else {
            0
        }
    }
}

/// How the last of the calls to that peer went, if there was one.
pub open spec fn last_outcome(
    keys: Seq<Seq<char>>,
    outcomes: Seq<Outcome>,
    key: Seq<char>,
) -> Option<Outcome>
    decreases keys.len(),
{
    if keys.len() == 0 {
        None
    } else if keys.last() == key {
        Some(outcomes.last())
    } else {
        last_outcome(keys.drop_last(), outcomes.drop_last(), key)
    }
}

/// Calls add to the successes of a candidate one for each that it answered, as far as the count
/// goes.
pub proof fn law_successes_add_up(
    known: Map<Seq<char>, CandidateView>,
    keys: Seq<Seq<char>>,
    outcomes: Seq<Outcome>,
    silence: Seq<char>,
    key: Seq<char>,
)
    requires
        keys.len() == outcomes.len(),
        known.dom().contains(key),
    ensures
        ({
            let sum = known[key].success_count + answers(keys, outcomes, key);
            with_outcomes(known, keys, outcomes, silence)[key].success_count == if sum
                <= u32::MAX {
                sum
            } else {
                u32::MAX as int
            }
        }),
    decreases keys.len(),
{
    if keys.len() > 0 {
        law_successes_add_up(known, keys.drop_last(), outcomes.drop_last(), silence, key);
        law_calls_keep_candidates(known, keys.drop_last(), outcomes.drop_last(), silence, key);
    }
}

/// What is noted of a candidate is how its last call went: nothing where it answered, the silence
/// where nothing came back, and else which call failed. Where it was not called, what was noted
/// stays.
pub proof fn law_last_call_is_noted(
    known: Map<Seq<char>, CandidateView>,
    keys: Seq<Seq<char>>,
    outcomes: Seq<Outcome>,
    silence: Seq<char>,
    key: Seq<char>,
)
    requires
        keys.len() == outcomes.len(),
        known.dom().contains(key),
    ensures
        with_outcomes(known, keys, outcomes, silence)[key].last_error == match last_outcome(
            keys,
            outcomes,
            key,
        ) {
            None => known[key].last_error,
            Some(Ok(true)) => None,
            Some(Ok(false)) => Some(silence),
            Some(Err(PeerError::SignedAddressList)) => Some("get_signed_address_list failed"@),
            Some(Err(PeerError::FindNodes)) => Some("find_dht_nodes failed"@),
            Some(Err(PeerError::Ping)) => Some("DHT ping failed"@),
        },
    decreases keys.len(),
{
    if keys.len() > 0 {
        law_last_call_is_noted(known, keys.drop_last(), outcomes.drop_last(), silence, key);
        law_calls_keep_candidates(known, keys.drop_last(), outcomes.drop_last(), silence, key);
    }
}

/// The `j`th call was one to that peer, and the peer answered.
pub open spec fn answered_at(
    keys: Seq<Seq<char>>,
    outcomes: Seq<Outcome>,
    key: Seq<char>,
    j: int,
) -> bool {
    0 <= j < keys.len() && keys[j] == key && outcomes[j] == Ok::<bool, PeerError>(true)
}

/// The course of a crawl: `states[i]` is where it was before `events[i]`.
pub open spec fn is_course(states: Seq<CrawlView>, events: Seq<CrawlEvent>) -> bool {
    &&& states.len() == events.len() + 1
    &&& forall|i: int| 0 <= i < states.len() ==> crawl_wf(#[trigger] states[i])
    &&& forall|i: int|
        0 <= i < events.len() ==> takes_step(states[i], #[trigger] events[i], states[i + 1])
}

/// The peer with that identifier answered a query or a ping in the course of a crawl.
pub open spec fn has_answered(
    states: Seq<CrawlView>,
    events: Seq<CrawlEvent>,
    key: Seq<char>,
) -> bool {
    exists|i: int, j: int|
        0 <= i < events.len() && #[trigger] events[i] is Called && #[trigger] answered_at(
            states[i].asked,
            events[i]->Called_0,
            key,
            j,
        )
}

/// Some of the seed nodes has that identifier.
pub open spec fn is_among(seeds: Seq<NodeRecordView>, key: Seq<char>) -> bool {
    exists|i: int| 0 <= i < seeds.len() && (#[trigger] seeds[i]).key_id == Ok::<
        Seq<char>,
        Seq<char>,
    >(key)
}

/// What is recorded from nothing has no successes, and comes from the records.
proof fn lemma_first_records(
    earlier: Seq<Seq<char>>,
    seeds: Seq<NodeRecordView>,
    seed: bool,
    now: u64,
    key: Seq<char>,
)
    requires
        with_records(Map::empty(), earlier, seeds, seed, now).0.dom().contains(key),
    ensures
        with_records(Map::empty(), earlier, seeds, seed, now).0[key].success_count == 0,
        is_among(seeds, key),
    decreases seeds.len(),
{
    let rest = seeds.drop_last();
    let (before, wrong) = with_records(Map::empty(), earlier, rest, seed, now);
    if before.dom().contains(key) {
        lemma_first_records(earlier, rest, seed, now, key);
        let i = choose|i: int| 0 <= i < rest.len() && (#[trigger] rest[i]).key_id == Ok::<
            Seq<char>,
            Seq<char>,
        >(key);
        assert(seeds[i].key_id == rest[i].key_id);
    } else {
        assert(seeds[seeds.len() - 1].key_id == Ok::<Seq<char>, Seq<char>>(key));
    }
}

/// A candidate that is new after a recording has no successes.
proof fn lemma_new_candidates(
    known: Map<Seq<char>, CandidateView>,
    earlier: Seq<Seq<char>>,
    records: Seq<NodeRecordView>,
    seed: bool,
    now: u64,
    key: Seq<char>,
)
    requires
        !known.dom().contains(key),
        with_records(known, earlier, records, seed, now).0.dom().contains(key),
    ensures
        with_records(known, earlier, records, seed, now).0[key].success_count == 0,
    decreases records.len(),
{
    let rest = records.drop_last();
    if with_records(known, earlier, rest, seed, now).0.dom().contains(key) {
        lemma_new_candidates(known, earlier, rest, seed, now, key);
    }
}

pub proof fn lemma_shorter_course(states: Seq<CrawlView>, events: Seq<CrawlEvent>)
    requires
        is_course(states, events),
        events.len() > 0,
    ensures
        is_course(states.drop_last(), events.drop_last()),
        takes_step(states.drop_last().last(), events.last(), states.last()),
{
    let (s, e) = (states.drop_last(), events.drop_last());
    assert forall|i: int| 0 <= i < e.len() implies takes_step(
        s[i],
        #[trigger] e[i],
        s[i + 1],
    ) by {
        assert(takes_step(states[i], events[i], states[i + 1]));
    }
    let n = events.len() - 1;
    assert(takes_step(states[n], events[n], states[n + 1]));
}

/// Whatever the course of a crawl, a candidate has a success only if it answered a query or a
/// ping in it.
pub proof fn law_success_means_an_answer(
    seeds: Seq<NodeRecordView>,
    accepted: Seq<bool>,
    states: Seq<CrawlView>,
    events: Seq<CrawlEvent>,
    key: Seq<char>,
)
    requires
        is_course(states, events),
        begins_with(states[0], seeds, accepted),
        by_key(states.last().candidates).dom().contains(key),
        by_key(states.last().candidates)[key].success_count >= 1,
    ensures
        has_answered(states, events, key),
    decreases events.len(),
{
    if events.len() == 0 {
        lemma_first_records(
            states[0].rejected,
            accepted_of(seeds, accepted),
            true,
            states[0].now,
            key,
        );
    } else {
        let n = events.len() - 1;
        let (s, e) = (states.drop_last(), events.drop_last());
        lemma_shorter_course(states, events);
        let before = by_key(states[n].candidates);
        match events[n] {
            CrawlEvent::Known(records) => {
                if before.dom().contains(key) {
                    law_records_lose_nothing(
                        before,
                        states[n].rejected,
                        records,
                        false,
                        states[n].now,
                        key,
                    );
                } else {
                    lemma_new_candidates(
                        before,
                        states[n].rejected,
                        records,
                        false,
                        states[n].now,
                        key,
                    );
                }
            },
            CrawlEvent::Called(outcomes) => {
                let note = silence(states[n].phase);
                law_calls_keep_candidates(before, states[n].asked, outcomes, note, key);
                if before[key].success_count == 0 {
                    law_only_answers_count(before, states[n].asked, outcomes, note, key);
                    let j = choose|j: int| #[trigger]
                        answered_at(states[n].asked, outcomes, key, j);
                    assert(events[n] is Called && answered_at(
                        states[n].asked,
                        events[n]->Called_0,
                        key,
                        j,
                    ));
                }
            },
        }
        if !has_answered(states, events, key) {
            law_success_means_an_answer(seeds, accepted, s, e, key);
            let (i, j) = choose|i: int, j: int|
                0 <= i < e.len() && #[trigger] e[i] is Called && #[trigger] answered_at(
                    s[i].asked,
                    e[i]->Called_0,
                    key,
                    j,
                );
            assert(events[i] is Called && answered_at(
                states[i].asked,
                events[i]->Called_0,
                key,
                j,
            ));
        }
    }
}

/// What the network did not take of the seed nodes stays what it was in the course of a crawl.
proof fn lemma_rejected_stay(states: Seq<CrawlView>, events: Seq<CrawlEvent>)
    requires
        is_course(states, events),
    ensures
        states.last().rejected == states[0].rejected,
    decreases events.len(),
{
    if events.len() > 0 {
        lemma_shorter_course(states, events);
        lemma_rejected_stay(states.drop_last(), events.drop_last());
    }
}

/// How often a node is in a list of records.
pub open spec fn times_seen(records: Seq<NodeRecordView>, key: Seq<char>) -> nat
    decreases records.len(),
{
    if records.len() == 0 {
        0
    } else {
        times_seen(records.drop_last(), key) + if records.last().key_id == Ok::<
            Seq<char>,
            Seq<char>,
        >(key) {
            1nat
        } else {
            0
        }
    }
}

/// How often the network told of a node.
pub open spec fn times_told(events: Seq<CrawlEvent>, key: Seq<char>) -> nat
    decreases events.len(),
{
    if events.len() == 0 {
        0
    } else {
        times_told(events.drop_last(), key) + match events.last() {
            CrawlEvent::Known(records) => times_seen(records, key),
            CrawlEvent::Called(_) => 0,
        }
    }
}

/// Each seed node was taken by the network or was not.
proof fn lemma_seeds_are_split(
    seeds: Seq<NodeRecordView>,
    accepted: Seq<bool>,
    key: Seq<char>,
)
    requires
        seeds.len() == accepted.len(),
    ensures
        times_seen(seeds, key) == times_seen(accepted_of(seeds, accepted), key) + times(
            rejected_of(seeds, accepted),
            key,
        ),
    decreases seeds.len(),
{
    if seeds.len() > 0 {
        let (rest, flags) = (seeds.drop_last(), accepted.drop_last());
        lemma_seeds_are_split(rest, flags, key);
        let kept = accepted_of(rest, flags);
        let keys = rejected_of(rest, flags);
        assert(kept.push(seeds.last()).drop_last() =~= kept);
        if let Ok(other) = seeds.last().key_id {
            assert(keys.push(other).drop_last() =~= keys);
        }
    }
}

/// A node is in a list if it is there once at least.
proof fn lemma_times_seen_among(records: Seq<NodeRecordView>, key: Seq<char>)
    ensures
        times_seen(records, key) > 0 <==> is_among(records, key),
    decreases records.len(),
{
    if records.len() > 0 {
        let rest = records.drop_last();
        lemma_times_seen_among(rest, key);
        if is_among(rest, key) {
            let i = choose|i: int| 0 <= i < rest.len() && (#[trigger] rest[i]).key_id == Ok::<
                Seq<char>,
                Seq<char>,
            >(key);
            assert(records[i].key_id == Ok::<Seq<char>, Seq<char>>(key));
        }
        if is_among(records, key) {
            let i = choose|i: int| 0 <= i < records.len() && (#[trigger] records[i]).key_id
                == Ok::<Seq<char>, Seq<char>>(key);
            if i < rest.len() {
                assert(rest[i].key_id == Ok::<Seq<char>, Seq<char>>(key));
            }
        }
        if records.last().key_id == Ok::<Seq<char>, Seq<char>>(key) {
            assert(records[records.len() - 1].key_id == Ok::<Seq<char>, Seq<char>>(key));
        }
    }
}

/// A recording counts each time that it sees a node, and for one that is new the earlier times.
proof fn lemma_recording_counts(
    known: Map<Seq<char>, CandidateView>,
    earlier: Seq<Seq<char>>,
    records: Seq<NodeRecordView>,
    seed: bool,
    now: u64,
    key: Seq<char>,
)
    requires
        with_records(known, earlier, records, seed, now).1 is None,
    ensures
        ({
            let after = with_records(known, earlier, records, seed, now).0;
            let n = times_seen(records, key);
            &&& after.dom().contains(key) <==> known.dom().contains(key) || n > 0
            &&& known.dom().contains(key) ==> after[key].seen_count == saturated(
                known[key].seen_count + n,
            )
            &&& !known.dom().contains(key) && n > 0 ==> after[key].seen_count == saturated(
                (n + times(earlier, key)) as int,
            )
        }),
    decreases records.len(),
{
    if records.len() > 0 {
        lemma_recording_counts(known, earlier, records.drop_last(), seed, now, key);
        assert(record_error(records.last()) is None);
    }
}

pub proof fn lemma_sightings(
    seeds: Seq<NodeRecordView>,
    accepted: Seq<bool>,
    states: Seq<CrawlView>,
    events: Seq<CrawlEvent>,
    key: Seq<char>,
)
    requires
        is_course(states, events),
        begins_with(states[0], seeds, accepted),
    ensures
        ({
            let known = by_key(states.last().candidates);
            let told = times_told(events, key);
            &&& known.dom().contains(key) <==> times_seen(accepted_of(seeds, accepted), key) + told
                > 0
            &&& known.dom().contains(key) ==> known[key].seen_count == saturated(
                (times_seen(seeds, key) + told) as int,
            )
        }),
    decreases events.len(),
{
    lemma_seeds_are_split(seeds, accepted, key);
    if events.len() == 0 {
        lemma_recording_counts(
            Map::empty(),
            states[0].rejected,
            accepted_of(seeds, accepted),
            true,
            states[0].now,
            key,
        );
    } else {
        let n = events.len() - 1;
        let (s, e) = (states.drop_last(), events.drop_last());
        lemma_shorter_course(states, events);
        lemma_rejected_stay(s, e);
        lemma_sightings(seeds, accepted, s, e, key);
        let before = by_key(states[n].candidates);
        match events[n] {
            CrawlEvent::Known(records) => {
                lemma_recording_counts(
                    before,
                    states[n].rejected,
                    records,
                    false,
                    states[n].now,
                    key,
                );
            },
            CrawlEvent::Called(outcomes) => {
                law_calls_keep_candidates(
                    before,
                    states[n].asked,
                    outcomes,
                    silence(states[n].phase),
                    key,
                );
            },
        }
    }
}

/// Whatever the course of a crawl, a candidate was seen as often as the seed configuration has it,
/// whether the network took it from there or not, and the network told of it.
pub proof fn law_every_sighting_counts(
    seeds: Seq<NodeRecordView>,
    accepted: Seq<bool>,
    states: Seq<CrawlView>,
    events: Seq<CrawlEvent>,
    key: Seq<char>,
)
    requires
        is_course(states, events),
        begins_with(states[0], seeds, accepted),
        by_key(states.last().candidates).dom().contains(key),
    ensures
        by_key(states.last().candidates)[key].seen_count == saturated(
            (times_seen(seeds, key) + times_told(events, key)) as int,
        ),
{
    lemma_sightings(seeds, accepted, states, events, key);
}

/// Whatever the course of a crawl, the candidates that count as seed nodes are those that the seed
/// configuration has, whether the network took them from there or told of them. None that it took
/// is lost.
pub proof fn law_seed_nodes_are_those_of_the_seeds(
    seeds: Seq<NodeRecordView>,
    accepted: Seq<bool>,
    states: Seq<CrawlView>,
    events: Seq<CrawlEvent>,
    key: Seq<char>,
)
    requires
        is_course(states, events),
        begins_with(states[0], seeds, accepted),
    ensures
        ({
            let known = by_key(states.last().candidates);
            &&& known.dom().contains(key) ==> (known[key].seed <==> is_among(seeds, key))
            &&& is_among(accepted_of(seeds, accepted), key) ==> known.dom().contains(key)
        }),
    decreases events.len(),
{
    let kept = accepted_of(seeds, accepted);
    lemma_sightings(seeds, accepted, states, events, key);
    lemma_seeds_are_split(seeds, accepted, key);
    lemma_times_seen_among(kept, key);
    lemma_times_seen_among(seeds, key);
    if events.len() == 0 {
        if is_among(kept, key) {
            let i = choose|i: int| 0 <= i < kept.len() && (#[trigger] kept[i]).key_id == Ok::<
                Seq<char>,
                Seq<char>,
            >(key);
            law_recorded_nodes_are_known(
                Map::empty(),
                states[0].rejected,
                kept,
                true,
                states[0].now,
                i,
            );
        }
    } else {
        let n = events.len() - 1;
        let (s, e) = (states.drop_last(), events.drop_last());
        lemma_shorter_course(states, events);
        lemma_rejected_stay(s, e);
        lemma_sightings(seeds, accepted, s, e, key);
        law_seed_nodes_are_those_of_the_seeds(seeds, accepted, s, e, key);
        lemma_times_contains(states[n].rejected, key);
        let before = by_key(states[n].candidates);
        let after = by_key(states[n + 1].candidates);
        match events[n] {
            CrawlEvent::Known(records) => {
                if after.dom().contains(key) {
                    law_only_seeds_are_marked(
                        before,
                        states[n].rejected,
                        records,
                        states[n].now,
                        key,
                    );
                }
            },
            CrawlEvent::Called(outcomes) => {
                law_calls_keep_candidates(
                    before,
                    states[n].asked,
                    outcomes,
                    silence(states[n].phase),
                    key,
                );
            },
        }
    }
}

/// The peer with that identifier was pinged in the course of a crawl.
pub open spec fn was_pinged(
    states: Seq<CrawlView>,
    events: Seq<CrawlEvent>,
    key: Seq<char>,
) -> bool {
    exists|i: int|
        0 <= i < events.len() && #[trigger] events[i] is Called && states[i].phase is Pinging
            && states[i].asked.contains(key)
}

proof fn lemma_pings(
    states: Seq<CrawlView>,
    events: Seq<CrawlEvent>,
    key: Seq<char>,
)
    requires
        is_course(states, events),
        states[0].phase is Collecting,
        keys_of(states.last().candidates).contains(key),
    ensures
        ({
            let end = states.last();
            &&& end.phase is Finished ==> was_pinged(states, events, key)
            &&& end.phase is Pinging ==> was_pinged(states, events, key) || end.asked.contains(
                key,
            ) || end.pending.contains(key)
        }),
    decreases events.len(),
{
    if events.len() > 0 {
        let n = events.len() - 1;
        let (s, e) = (states.drop_last(), events.drop_last());
        lemma_shorter_course(states, events);
        let (before, after) = (states[n], states[n + 1]);
        if events[n] is Called {
            lemma_pings(s, e, key);
            if was_pinged(s, e, key) {
                let i = choose|i: int|
                    0 <= i < e.len() && #[trigger] e[i] is Called && s[i].phase is Pinging
                        && s[i].asked.contains(key);
                assert(events[i] is Called && states[i].phase is Pinging
                    && states[i].asked.contains(key));
            } else if before.phase is Pinging {
                if before.asked.contains(key) {
                    assert(events[n] is Called);
                } else {
                    lemma_split(before.pending, key, after.asked.len() as int);
                }
            }
        } else {
            lemma_split(keys_of(after.candidates), key, after.asked.len() as int);
        }
    }
}

/// What is in a list is before a place in it or after.
proof fn lemma_split(keys: Seq<Seq<char>>, key: Seq<char>, n: int)
    requires
        keys.contains(key),
        0 <= n <= keys.len(),
    ensures
        keys.take(n).contains(key) || keys.skip(n).contains(key),
{
    let i = choose|i: int| 0 <= i < keys.len() && keys[i] == key;
    if i < n {
        assert(keys.take(n)[i] == key);
    } else {
        assert(keys.skip(n)[i - n] == key);
    }
}

/// A crawl that has finished has pinged every one of its candidates.
pub proof fn law_every_candidate_is_pinged(
    seeds: Seq<NodeRecordView>,
    accepted: Seq<bool>,
    states: Seq<CrawlView>,
    events: Seq<CrawlEvent>,
    key: Seq<char>,
)
    requires
        is_course(states, events),
        begins_with(states[0], seeds, accepted),
        states.last().phase is Finished,
        by_key(states.last().candidates).dom().contains(key),
    ensures
        was_pinged(states, events, key),
{
    let list = states.last().candidates;
    let i = choose|i: int| #[trigger] stands_at(list, key, i);
    assert(stands_at(list, key, i));
    assert(keys_of(list)[i] == key);
    lemma_pings(states, events, key);
}

/// What is known of a node under an identifier is what a record tells of it.
pub open spec fn told_by(
    candidate: CandidateView,
    key: Seq<char>,
    record: NodeRecordView,
) -> bool {
    &&& record.key_id == Ok::<Seq<char>, Seq<char>>(key)
    &&& record.node == candidate.node
    &&& record.public_key == candidate.public_key
    &&& record.signature == candidate.signature
}

/// The network told of a node in the course of a crawl.
pub open spec fn network_told(events: Seq<CrawlEvent>, record: NodeRecordView) -> bool {
    exists|i: int|
        0 <= i < events.len() && (#[trigger] events[i]) is Known && events[i]->Known_0.contains(
            record,
        )
}

/// A crawl learnt of a node that passed verification: as one of the seed nodes that the network
/// took, or from the network.
pub open spec fn is_source(
    seeds: Seq<NodeRecordView>,
    accepted: Seq<bool>,
    events: Seq<CrawlEvent>,
    record: NodeRecordView,
) -> bool {
    was_accepted(seeds, accepted, record) || network_told(events, record)
}

/// After a recording, what is known of a node was known before or is what a record tells.
proof fn lemma_records_tell(
    known: Map<Seq<char>, CandidateView>,
    earlier: Seq<Seq<char>>,
    records: Seq<NodeRecordView>,
    seed: bool,
    now: u64,
    key: Seq<char>,
)
    requires
        with_records(known, earlier, records, seed, now).0.dom().contains(key),
    ensures
        ({
            let after = with_records(known, earlier, records, seed, now).0;
            ||| {
                &&& known.dom().contains(key)
                &&& after[key].node == known[key].node
                &&& after[key].public_key == known[key].public_key
                &&& after[key].signature == known[key].signature
            }
            ||| exists|record: NodeRecordView|
                records.contains(record) && #[trigger] told_by(after[key], key, record)
        }),
    decreases records.len(),
{
    if records.len() > 0 {
        let rest = records.drop_last();
        let (before, wrong) = with_records(known, earlier, rest, seed, now);
        let last = records.last();
        let after = with_records(known, earlier, records, seed, now).0;
        if wrong is None && record_error(last) is None && last.key_id->Ok_0 == key {
            assert(records[records.len() - 1] == last);
            assert(records.contains(last) && told_by(after[key], key, last));
        } else {
            lemma_records_tell(known, earlier, rest, seed, now, key);
            if exists|record: NodeRecordView|
                rest.contains(record) && #[trigger] told_by(before[key], key, record) {
                let record = choose|record: NodeRecordView|
                    rest.contains(record) && #[trigger] told_by(before[key], key, record);
                let i = choose|i: int| 0 <= i < rest.len() && rest[i] == record;
                assert(records[i] == record);
                assert(records.contains(record) && told_by(after[key], key, record));
            }
        }
    }
}

/// What a crawl learnt of in a shorter course it learnt of in the whole.
proof fn lemma_source_stays(
    seeds: Seq<NodeRecordView>,
    accepted: Seq<bool>,
    events: Seq<CrawlEvent>,
    record: NodeRecordView,
)
    requires
        events.len() > 0,
        is_source(seeds, accepted, events.drop_last(), record),
    ensures
        is_source(seeds, accepted, events, record),
{
    let e = events.drop_last();
    if network_told(e, record) {
        let i = choose|i: int|
            0 <= i < e.len() && (#[trigger] e[i]) is Known && e[i]->Known_0.contains(record);
        assert(events[i] is Known && events[i]->Known_0.contains(record));
    }
}

/// Whatever the course of a crawl, every candidate is a seed node that the network took or one that
/// the network told of: with the data, the key and the signature of that record.
pub proof fn law_candidates_come_from_records(
    seeds: Seq<NodeRecordView>,
    accepted: Seq<bool>,
    states: Seq<CrawlView>,
    events: Seq<CrawlEvent>,
    key: Seq<char>,
)
    requires
        is_course(states, events),
        begins_with(states[0], seeds, accepted),
        by_key(states.last().candidates).dom().contains(key),
    ensures
        exists|record: NodeRecordView|
            is_source(seeds, accepted, events, record) && #[trigger] told_by(
                by_key(states.last().candidates)[key],
                key,
                record,
            ),
    decreases events.len(),
{
    let after = by_key(states.last().candidates);
    if events.len() == 0 {
        let kept = accepted_of(seeds, accepted);
        lemma_records_tell(Map::empty(), states[0].rejected, kept, true, states[0].now, key);
        let record = choose|record: NodeRecordView|
            kept.contains(record) && #[trigger] told_by(after[key], key, record);
        law_accepted_seeds_are_those_taken(seeds, accepted, record);
        assert(is_source(seeds, accepted, events, record) && told_by(after[key], key, record));
    } else {
        let n = events.len() - 1;
        let (s, e) = (states.drop_last(), events.drop_last());
        lemma_shorter_course(states, events);
        let before = by_key(states[n].candidates);
        if let CrawlEvent::Known(records) = events[n] {
            lemma_records_tell(
                before,
                states[n].rejected,
                records,
                false,
                states[n].now,
                key,
            );
        }
        if let CrawlEvent::Called(outcomes) = events[n] {
            law_calls_keep_candidates(
                before,
                states[n].asked,
                outcomes,
                silence(states[n].phase),
                key,
            );
        }
        if events[n] is Known && exists|record: NodeRecordView|
            events[n]->Known_0.contains(record) && #[trigger] told_by(after[key], key, record) {
            let record = choose|record: NodeRecordView|
                events[n]->Known_0.contains(record) && #[trigger] told_by(
                    after[key],
                    key,
                    record,
                );
            assert(is_source(seeds, accepted, events, record) && told_by(after[key], key, record));
        } else {
            law_candidates_come_from_records(seeds, accepted, s, e, key);
            let record = choose|record: NodeRecordView|
                is_source(seeds, accepted, e, record) && #[trigger] told_by(
                    before[key],
                    key,
                    record,
                );
            lemma_source_stays(seeds, accepted, events, record);
            assert(is_source(seeds, accepted, events, record) && told_by(after[key], key, record));
        }
    }
}

/// A seed node that the network did not take becomes no candidate, whatever the course of the
/// crawl, unless the network itself tells of it.
pub proof fn law_rejected_seed_is_no_candidate(
    seeds: Seq<NodeRecordView>,
    accepted: Seq<bool>,
    states: Seq<CrawlView>,
    events: Seq<CrawlEvent>,
    key: Seq<char>,
)
    requires
        is_course(states, events),
        begins_with(states[0], seeds, accepted),
        forall|record: NodeRecordView|
            #![trigger was_accepted(seeds, accepted, record)]
            #![trigger network_told(events, record)]
            was_accepted(seeds, accepted, record) || network_told(events, record)
                ==> record.key_id != Ok::<Seq<char>, Seq<char>>(key),
    ensures
        !by_key(states.last().candidates).dom().contains(key),
{
    let known = by_key(states.last().candidates);
    if known.dom().contains(key) {
        law_candidates_come_from_records(seeds, accepted, states, events, key);
        let record = choose|record: NodeRecordView|
            is_source(seeds, accepted, events, record) && #[trigger] told_by(
                known[key],
                key,
                record,
            );
        assert(was_accepted(seeds, accepted, record) || network_told(events, record));
    }
}

/// Where records with one key have one identifier, no two candidates share a key, whatever the
/// course of the crawl.
pub proof fn law_public_keys_are_distinct(
    seeds: Seq<NodeRecordView>,
    accepted: Seq<bool>,
    states: Seq<CrawlView>,
    events: Seq<CrawlEvent>,
    i: int,
    j: int,
)
    requires
        is_course(states, events),
        begins_with(states[0], seeds, accepted),
        keys_identify(seeds, accepted, events),
        0 <= i < j < states.last().candidates.len(),
    ensures
        states.last().candidates[i].public_key != states.last().candidates[j].public_key,
{
    let list = states.last().candidates;
    let (a, b) = (list[i], list[j]);
    assert(crawl_wf(states[states.len() - 1]));
    lemma_by_key_at(list, i);
    lemma_by_key_at(list, j);
    law_candidates_come_from_records(seeds, accepted, states, events, a.key_id);
    law_candidates_come_from_records(seeds, accepted, states, events, b.key_id);
    let x = choose|record: NodeRecordView|
        is_source(seeds, accepted, events, record) && #[trigger] told_by(a, a.key_id, record);
    let y = choose|record: NodeRecordView|
        is_source(seeds, accepted, events, record) && #[trigger] told_by(b, b.key_id, record);
    assert(is_source(seeds, accepted, events, x) && is_source(seeds, accepted, events, y));
    assert(text_before(a.key_id, b.key_id));
    law_text_order_is_strict(a.key_id, a.key_id);
}

/// The nodes that a crawl learnt of have one identifier where they have one key.
pub open spec fn keys_identify(
    seeds: Seq<NodeRecordView>,
    accepted: Seq<bool>,
    events: Seq<CrawlEvent>,
) -> bool {
    forall|a: NodeRecordView, b: NodeRecordView|
        #![trigger is_source(seeds, accepted, events, a), is_source(seeds, accepted, events, b)]
        is_source(seeds, accepted, events, a) && is_source(seeds, accepted, events, b)
            && a.public_key == b.public_key ==> a.key_id == b.key_id
}

proof fn lemma_queries(
    seeds: Seq<NodeRecordView>,
    accepted: Seq<bool>,
    states: Seq<CrawlView>,
    events: Seq<CrawlEvent>,
    key: Seq<char>,
)
    requires
        is_course(states, events),
        begins_with(states[0], seeds, accepted),
        !states[0].recursive,
    ensures
        !states.last().recursive,
        states.last().phase is Querying && (states.last().asked.contains(key)
            || states.last().pending.contains(key)) ==> is_among(seeds, key),
    decreases events.len(),
{
    if events.len() > 0 {
        let n = events.len() - 1;
        let (before, after) = (states[n], states[n + 1]);
        lemma_shorter_course(states, events);
        lemma_queries(seeds, accepted, states.drop_last(), events.drop_last(), key);
        if after.phase is Querying && (after.asked.contains(key) || after.pending.contains(key)) {
            if events[n] is Called {
                lemma_part(before.pending, key, after.asked.len() as int);
            } else {
                let targets = targets_of(after.candidates, false);
                lemma_part(targets, key, after.asked.len() as int);
                assert(crawl_wf(states[n + 1]));
                law_plain_crawl_queries_seeds_only(after.candidates, key);
                law_seed_nodes_are_those_of_the_seeds(seeds, accepted, states, events, key);
            }
        }
    }
}

/// What is before a place in a list or after is in the list.
proof fn lemma_part(keys: Seq<Seq<char>>, key: Seq<char>, n: int)
    requires
        0 <= n <= keys.len(),
        keys.take(n).contains(key) || keys.skip(n).contains(key),
    ensures
        keys.contains(key),
{
    if keys.take(n).contains(key) {
        let i = choose|i: int| 0 <= i < keys.take(n).len() && keys.take(n)[i] == key;
        assert(keys[i] == key);
    } else {
        let i = choose|i: int| 0 <= i < keys.skip(n).len() && keys.skip(n)[i] == key;
        assert(keys[i + n] == key);
    }
}

/// At no point of its course does a crawl that is not recursive query any peer but the nodes of the
/// seed configuration.
pub proof fn law_only_seeds_are_queried(
    seeds: Seq<NodeRecordView>,
    accepted: Seq<bool>,
    states: Seq<CrawlView>,
    events: Seq<CrawlEvent>,
    i: int,
    key: Seq<char>,
)
    requires
        is_course(states, events),
        begins_with(states[0], seeds, accepted),
        !states[0].recursive,
        0 <= i < states.len(),
        states[i].phase is Querying,
        states[i].asked.contains(key),
    ensures
        is_among(seeds, key),
    decreases events.len(),
{
    if i < events.len() {
        lemma_shorter_course(states, events);
        law_only_seeds_are_queried(seeds, accepted, states.drop_last(), events.drop_last(), i, key);
    } else {
        lemma_queries(seeds, accepted, states, events, key);
    }
}

/// A crawl that is not recursive queries the seed nodes, and no others.
pub proof fn law_plain_crawl_queries_seeds_only(list: Seq<CandidateView>, key: Seq<char>)
    requires
        well_formed(list),
    ensures
        targets_of(list, false).contains(key) <==> by_key(list).dom().contains(key) && by_key(
            list,
        )[key].seed,
{
    let is_seed = |candidate: CandidateView| candidate.seed;
    let seeds = seeds_of(list);
    let targets = targets_of(list, false);
    if targets.contains(key) {
        let i = choose|i: int| 0 <= i < targets.len() && targets[i] == key;
        list.lemma_filter_pred(is_seed, i);
        lemma_filter_is_part(list, is_seed, seeds[i]);
        let j = choose|j: int| 0 <= j < list.len() && list[j] == seeds[i];
        lemma_by_key_at(list, j);
    }
    if by_key(list).dom().contains(key) && by_key(list)[key].seed {
        let j = choose|j: int| #[trigger] stands_at(list, key, j);
        assert(stands_at(list, key, j));
        lemma_by_key_at(list, j);
        list.lemma_filter_contains(is_seed, j);
        let i = choose|i: int| 0 <= i < seeds.len() && seeds[i] == list[j];
        assert(targets[i] == key);
    }
}

/// A recursive crawl queries all candidates.
pub proof fn law_recursive_crawl_queries_all(list: Seq<CandidateView>, key: Seq<char>)
    requires
        well_formed(list),
    ensures
        targets_of(list, true).contains(key) <==> by_key(list).dom().contains(key),
{
    let targets = targets_of(list, true);
    if targets.contains(key) {
        let i = choose|i: int| 0 <= i < targets.len() && targets[i] == key;
        lemma_by_key_at(list, i);
    }
    if by_key(list).dom().contains(key) {
        let j = choose|j: int| #[trigger] stands_at(list, key, j);
        assert(stands_at(list, key, j));
        assert(targets[j] == key);
    }
}

proof fn lemma_filter_is_part(
    list: Seq<CandidateView>,
    keep: spec_fn(CandidateView) -> bool,
    candidate: CandidateView,
)
    requires
        list.filter(keep).contains(candidate),
    ensures
        list.contains(candidate),
    decreases list.len(),
{
    reveal(Seq::filter);
    if list.len() > 0 {
        let rest = list.drop_last();
        let kept = list.filter(keep);
        let i = choose|i: int| 0 <= i < kept.len() && kept[i] == candidate;
        if candidate == list.last() {
            assert(list[list.len() - 1] == candidate);
        } else {
            assert(rest.filter(keep)[i] == candidate);
            lemma_filter_is_part(rest, keep, candidate);
            let j = choose|j: int| 0 <= j < rest.len() && rest[j] == candidate;
            assert(list[j] == candidate);
        }
    }
}

} // verus!
