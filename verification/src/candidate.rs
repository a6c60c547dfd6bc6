//! The nodes that a build knows of, and what is known of each.

use crate::error::{BuildError, ErrorView};
use crate::node::{DhtNode, DhtNodeView, PublicKey};
use crate::order::{asymmetric, law_sorting_is_unique, strictly_sorted};
use crate::text::{
    comes_before, law_text_order_is_strict, law_text_order_is_total, law_text_order_is_transitive,
    same_text, text_before,
};
use vstd::prelude::*;
use vstd::string::*;

verus! {

/// A node that was seen, with the texts that stand for it.
#[derive(Debug)]
pub struct NodeRecord {
    pub node: DhtNode,
    /// The identifier of the node's key, or else why it has none.
    pub key_id: Result<String, String>,
    /// The node's key in base64; it is read only where that is an Ed25519 key.
    pub public_key: String,
    /// The node's signature in base64.
    pub signature: String,
}

/// What a `NodeRecord` holds.
pub struct NodeRecordView {
    pub node: DhtNodeView,
    pub key_id: Result<Seq<char>, Seq<char>>,
    pub public_key: Seq<char>,
    pub signature: Seq<char>,
}

impl View for NodeRecord {
    type V = NodeRecordView;

    open spec fn view(&self) -> NodeRecordView {
        NodeRecordView {
            node: self.node@,
            key_id: match self.key_id {
                Ok(key) => Ok(key@),
                Err(reason) => Err(reason@),
            },
            public_key: self.public_key@,
            signature: self.signature@,
        }
    }
}

/// What is known of a node.
#[derive(Debug)]
pub struct Candidate {
    pub node: DhtNode,
    /// The identifier of the node's key.
    pub key_id: String,
    /// The node's key in base64.
    pub public_key: String,
    /// The node's signature in base64.
    pub signature: String,
    pub first_seen_at: u64,
    pub last_seen_at: u64,
    pub seen_count: u32,
    pub success_count: u32,
    pub seed: bool,
    pub last_error: Option<String>,
}

/// What a `Candidate` holds.
pub struct CandidateView {
    pub node: DhtNodeView,
    pub key_id: Seq<char>,
    pub public_key: Seq<char>,
    pub signature: Seq<char>,
    pub first_seen_at: u64,
    pub last_seen_at: u64,
    pub seen_count: u32,
    pub success_count: u32,
    pub seed: bool,
    pub last_error: Option<Seq<char>>,
}

/// What an optional text holds.
pub open spec fn text_view(text: Option<String>) -> Option<Seq<char>> {
    match text {
        Some(text) => Some(text@),
        None => None,
    }
}

impl View for Candidate {
    type V = CandidateView;

    open spec fn view(&self) -> CandidateView {
        CandidateView {
            node: self.node@,
            key_id: self.key_id@,
            public_key: self.public_key@,
            signature: self.signature@,
            first_seen_at: self.first_seen_at,
            last_seen_at: self.last_seen_at,
            seen_count: self.seen_count,
            success_count: self.success_count,
            seed: self.seed,
            last_error: text_view(self.last_error),
        }
    }
}

/// A count, but never more than fits.
pub open spec fn saturated(count: int) -> u32 {
    if count < u32::MAX {
        count as u32
    } else {
        u32::MAX
    }
}

/// One more, but never more than fits.
pub open spec fn one_more(count: u32) -> u32 {
    saturated(count + 1)
}

fn add_up(count: u32, more: u32) -> (r: u32)
    ensures
        r == saturated(count + more),
{
    if count < u32::MAX - more {
        count + more
    } else {
        u32::MAX
    }
}

fn count_up(count: u32) -> (r: u32)
    ensures
        r == one_more(count),
{
    add_up(count, 1)
}

/// How often an identifier is in a list.
pub open spec fn times(keys: Seq<Seq<char>>, key: Seq<char>) -> nat
    decreases keys.len(),
{
    if keys.len() == 0 {
        0
    } else {
        times(keys.drop_last(), key) + if keys.last() == key {
            1nat
        } else {
            0
        }
    }
}

/// An identifier is in a list if it is there once at least.
pub proof fn lemma_times_contains(keys: Seq<Seq<char>>, key: Seq<char>)
    ensures
        times(keys, key) > 0 <==> keys.contains(key),
    decreases keys.len(),
{
    if keys.len() > 0 {
        let rest = keys.drop_last();
        lemma_times_contains(rest, key);
        if rest.contains(key) {
            let i = choose|i: int| 0 <= i < rest.len() && rest[i] == key;
            assert(keys[i] == key);
        }
        if keys.contains(key) {
            let i = choose|i: int| 0 <= i < keys.len() && keys[i] == key;
            if i < rest.len() {
                assert(rest[i] == key);
            }
        }
    }
}

fn times_in(keys: &Vec<String>, key: &str) -> (r: u32)
    ensures
        r == saturated(times(text_views(keys@), key@) as int),
{
    let mut r: u32 = 0;
    let mut i: usize = 0;
    let ghost list = text_views(keys@);
    assert(list.take(0) =~= seq![]);
    while i < keys.len()
        invariant
            i <= keys@.len(),
            list == text_views(keys@),
            r == saturated(times(list.take(i as int), key@) as int),
        decreases keys@.len() - i,
    {
        proof {
            assert(list.take(i + 1).drop_last() =~= list.take(i as int));
        }
        if same_text(keys[i].as_str(), key) {
            r = count_up(r);
        }
        i = i + 1;
    }
    assert(list.take(i as int) =~= list);
    r
}

/// Why a node cannot be recorded, if it cannot.
pub open spec fn record_error(record: NodeRecordView) -> Option<ErrorView> {
    match record.key_id {
        Err(reason) => Some(ErrorView::NoKeyId(reason)),
        Ok(_) => if record.node.id is Ed25519 {
            None
        } else {
            Some(ErrorView::UnsupportedPublicKey)
        },
    }
}

/// Why nodes cannot all be recorded, if they cannot: what is wrong with the first that cannot be.
pub open spec fn first_error(records: Seq<NodeRecordView>) -> Option<ErrorView>
    decreases records.len(),
{
    if records.len() == 0 {
        None
    } else {
        match first_error(records.drop_last()) {
            Some(wrong) => Some(wrong),
            None => record_error(records.last()),
        }
    }
}

/// Tells whether a node can be recorded, and if not, why.
fn check_record(record: &NodeRecord) -> (r: Result<(), BuildError>)
    ensures
        match r {
            Ok(_) => record_error(record@) is None,
            Err(error) => record_error(record@) == Some(error@),
        },
{
    match &record.key_id {
        Err(reason) => Err(BuildError::NoKeyId(reason.clone())),
        Ok(_) => match record.node.id {
            PublicKey::Ed25519(_) => Ok(()),
            PublicKey::Unsupported => Err(BuildError::UnsupportedPublicKey),
        },
    }
}

/// Tells whether nodes can all be recorded, and if not, what is wrong with the first that cannot
/// be.
pub fn check_records(records: &Vec<NodeRecord>) -> (r: Result<(), BuildError>)
    ensures
        match r {
            Ok(_) => first_error(record_views(records@)) is None,
            Err(error) => first_error(record_views(records@)) == Some(error@),
        },
{
    let ghost views = record_views(records@);
    let mut i: usize = 0;
    assert(views.take(0) =~= seq![]);
    while i < records.len()
        invariant
            i <= records@.len(),
            views == record_views(records@),
            first_error(views.take(i as int)) is None,
        decreases records@.len() - i,
    {
        proof {
            assert(views.take(i + 1).drop_last() =~= views.take(i as int));
            assert(views.take(i + 1).last() == records@[i as int]@);
        }
        if let Err(error) = check_record(&records[i]) {
            proof {
                lemma_first_error_stays(views, i + 1);
            }
            return Err(error);
        }
        i = i + 1;
    }
    assert(views.take(i as int) =~= views);
    Ok(())
}

/// What is wrong in a list is wrong in a longer one.
proof fn lemma_first_error_stays(records: Seq<NodeRecordView>, i: int)
    requires
        0 <= i <= records.len(),
        first_error(records.take(i)) is Some,
    ensures
        first_error(records) == first_error(records.take(i)),
    decreases records.len() - i,
{
    if i < records.len() {
        assert(records.take(i + 1).drop_last() =~= records.take(i));
        lemma_first_error_stays(records, i + 1);
    } else {
        assert(records.take(i) =~= records);
    }
}

/// What is known of a node after it was seen at `now`, from what was known of it before.
pub open spec fn seen(
    known: Option<CandidateView>,
    record: NodeRecordView,
    seed: bool,
    now: u64,
) -> CandidateView {
    match known {
        Some(candidate) => CandidateView {
            node: record.node,
            public_key: record.public_key,
            signature: record.signature,
            last_seen_at: now,
            seen_count: one_more(candidate.seen_count),
            seed: candidate.seed || seed,
            ..candidate
        },
        None => CandidateView {
            node: record.node,
            key_id: record.key_id->Ok_0,
            public_key: record.public_key,
            signature: record.signature,
            first_seen_at: now,
            last_seen_at: now,
            seen_count: 1,
            success_count: 0,
            seed,
            last_error: None,
        },
    }
}

/// What is known of a node that is new, where the seed configuration had it `earlier` times
/// already: it is a seed node if it did, and was seen as often.
pub open spec fn sighted(candidate: CandidateView, earlier: nat) -> CandidateView {
    CandidateView {
        seed: candidate.seed || earlier > 0,
        seen_count: saturated(candidate.seen_count + earlier),
        ..candidate
    }
}

/// How a peer was found: `Ok(true)` where it answered, `Ok(false)` where nothing came back.
pub type Outcome = Result<bool, PeerError>;

/// The call to a peer that failed.
#[derive(Clone, Copy, Debug, PartialEq, Eq, Structural)]
pub enum PeerError {
    SignedAddressList,
    FindNodes,
    Ping,
}

impl PeerError {
    /// The error in words.
    pub open spec fn text(self) -> Seq<char> {
        match self {
            PeerError::SignedAddressList => "get_signed_address_list failed"@,
            PeerError::FindNodes => "find_dht_nodes failed"@,
            PeerError::Ping => "DHT ping failed"@,
        }
    }

    /// The error in words.
    pub fn message(&self) -> (r: String)
        ensures
            r@ == self.text(),
    {
        match self {
            PeerError::SignedAddressList => "get_signed_address_list failed".to_owned(),
            PeerError::FindNodes => "find_dht_nodes failed".to_owned(),
            PeerError::Ping => "DHT ping failed".to_owned(),
        }
    }
}

/// What is known of a node after it was called. `silence` says that nothing came back.
pub open spec fn called(
    candidate: CandidateView,
    outcome: Outcome,
    silence: Seq<char>,
) -> CandidateView {
    match outcome {
        Ok(true) => CandidateView {
            success_count: one_more(candidate.success_count),
            last_error: None,
            ..candidate
        },
        Ok(false) => CandidateView { last_error: Some(silence), ..candidate },
        Err(error) => CandidateView { last_error: Some(error.text()), ..candidate },
    }
}

/// The candidates of a build, each under the identifier of its key, in the order of these.
#[derive(Debug)]
pub struct CandidateTable {
    candidates: Vec<Candidate>,
}

impl View for CandidateTable {
    type V = Seq<CandidateView>;

    closed spec fn view(&self) -> Seq<CandidateView> {
        self.candidates@.map_values(|candidate: Candidate| candidate@)
    }
}

/// Strictly ascending identifiers.
pub open spec fn ascending(list: Seq<CandidateView>) -> bool {
    forall|i: int, j: int|
        0 <= i < j < list.len() ==> text_before(
            (#[trigger] list[i]).key_id,
            (#[trigger] list[j]).key_id,
        )
}

/// Identifiers in strictly ascending order, and Ed25519 keys only.
pub open spec fn well_formed(list: Seq<CandidateView>) -> bool {
    &&& ascending(list)
    &&& forall|i: int| 0 <= i < list.len() ==> (#[trigger] list[i]).node.id is Ed25519
}

/// The identifier `key` stands at `i`.
pub open spec fn stands_at(list: Seq<CandidateView>, key: Seq<char>, i: int) -> bool {
    0 <= i < list.len() && list[i].key_id == key
}

/// The candidates under their identifiers.
pub open spec fn by_key(list: Seq<CandidateView>) -> Map<Seq<char>, CandidateView> {
    Map::new(
        |key: Seq<char>| exists|i: int| #[trigger] stands_at(list, key, i),
        |key: Seq<char>| list[choose|i: int| #[trigger] stands_at(list, key, i)],
    )
}

/// What a map holds under an identifier.
pub open spec fn known_as(
    known: Map<Seq<char>, CandidateView>,
    key: Seq<char>,
) -> Option<CandidateView> {
    if known.dom().contains(key) {
        Some(known[key])
    } else {
        None
    }
}

/// The identifiers of a list, in order.
pub open spec fn keys_of(list: Seq<CandidateView>) -> Seq<Seq<char>> {
    list.map_values(|candidate: CandidateView| candidate.key_id)
}

/// A candidate is what its identifier leads to.
pub proof fn lemma_by_key_at(list: Seq<CandidateView>, i: int)
    requires
        ascending(list),
        0 <= i < list.len(),
    ensures
        by_key(list).dom().contains(list[i].key_id),
        by_key(list)[list[i].key_id] == list[i],
{
    let key = list[i].key_id;
    assert(stands_at(list, key, i));
    let j = choose|j: int| #[trigger] stands_at(list, key, j);
    assert(stands_at(list, key, j));
    law_text_order_is_strict(key, key);
    if j < i {
        assert(text_before(list[j].key_id, list[i].key_id));
    } else if i < j {
        assert(text_before(list[i].key_id, list[j].key_id));
    }
}

proof fn lemma_by_key_update(list: Seq<CandidateView>, i: int, candidate: CandidateView)
    requires
        ascending(list),
        0 <= i < list.len(),
        candidate.key_id == list[i].key_id,
    ensures
        ascending(list.update(i, candidate)),
        by_key(list.update(i, candidate)) == by_key(list).insert(candidate.key_id, candidate),
{
    let new = list.update(i, candidate);
    assert(forall|j: int| 0 <= j < list.len() ==> (#[trigger] new[j]).key_id == list[j].key_id);
    assert(ascending(new)) by {
        assert forall|j: int, k: int| 0 <= j < k < new.len() implies text_before(
            (#[trigger] new[j]).key_id,
            (#[trigger] new[k]).key_id,
        ) by {
            assert(text_before(list[j].key_id, list[k].key_id));
        }
    }
    lemma_by_key_at(new, i);
    assert forall|key: Seq<char>| #[trigger]
        by_key(new).dom().contains(key) == by_key(list).insert(
            candidate.key_id,
            candidate,
        ).dom().contains(key) by {
        if by_key(new).dom().contains(key) {
            let j = choose|j: int| #[trigger] stands_at(new, key, j);
            assert(stands_at(list, key, j));
        }
        if by_key(list).dom().contains(key) {
            let j = choose|j: int| #[trigger] stands_at(list, key, j);
            assert(stands_at(new, key, j));
        }
    }
    assert forall|key: Seq<char>| #[trigger] by_key(new).dom().contains(key) implies by_key(
        new,
    )[key] == by_key(list).insert(candidate.key_id, candidate)[key] by {
        let j = choose|j: int| #[trigger] stands_at(new, key, j);
        assert(stands_at(new, key, j));
        lemma_by_key_at(new, j);
        lemma_by_key_at(list, j);
    }
    assert(by_key(new) =~= by_key(list).insert(candidate.key_id, candidate));
}

proof fn lemma_by_key_insert(list: Seq<CandidateView>, p: int, candidate: CandidateView)
    requires
        ascending(list),
        0 <= p <= list.len(),
        forall|i: int| 0 <= i < p ==> text_before((#[trigger] list[i]).key_id, candidate.key_id),
        forall|i: int|
            p <= i < list.len() ==> text_before(candidate.key_id, (#[trigger] list[i]).key_id),
    ensures
        ascending(list.insert(p, candidate)),
        by_key(list.insert(p, candidate)) == by_key(list).insert(candidate.key_id, candidate),
{
    let new = list.insert(p, candidate);
    assert(ascending(new)) by {
        assert forall|j: int, k: int| 0 <= j < k < new.len() implies text_before(
            (#[trigger] new[j]).key_id,
            (#[trigger] new[k]).key_id,
        ) by {
            let a = if j < p { j } else { j - 1 };
            let b = if k < p { k } else { k - 1 };
            if j != p && k != p {
                assert(text_before(list[a].key_id, list[b].key_id));
            } else if j == p {
                assert(new[k] == list[b]);
            } else {
                assert(new[j] == list[a]);
            }
        }
    }
    assert(new[p] == candidate);
    lemma_by_key_at(new, p);
    assert forall|key: Seq<char>| #[trigger]
        by_key(new).dom().contains(key) == by_key(list).insert(
            candidate.key_id,
            candidate,
        ).dom().contains(key) by {
        if by_key(new).dom().contains(key) {
            let j = choose|j: int| #[trigger] stands_at(new, key, j);
            assert(stands_at(new, key, j));
            if j != p {
                assert(stands_at(list, key, if j < p { j } else { j - 1 }));
            }
        }
        if by_key(list).dom().contains(key) {
            let j = choose|j: int| #[trigger] stands_at(list, key, j);
            assert(stands_at(list, key, j));
            assert(stands_at(new, key, if j < p { j } else { j + 1 }));
        }
    }
    assert forall|key: Seq<char>| #[trigger] by_key(new).dom().contains(key) implies by_key(
        new,
    )[key] == by_key(list).insert(candidate.key_id, candidate)[key] by {
        let j = choose|j: int| #[trigger] stands_at(new, key, j);
        assert(stands_at(new, key, j));
        lemma_by_key_at(new, j);
        if j != p {
            let i = if j < p { j } else { j - 1 };
            assert(new[j] == list[i]);
            lemma_by_key_at(list, i);
            if key == candidate.key_id {
                law_text_order_is_strict(key, key);
            }
        }
    }
    assert(by_key(new) =~= by_key(list).insert(candidate.key_id, candidate));
}

/// What is known once a node was recorded that can be.
pub open spec fn with_record(
    known: Map<Seq<char>, CandidateView>,
    record: NodeRecordView,
    seed: bool,
    now: u64,
) -> Map<Seq<char>, CandidateView> {
    let key = record.key_id->Ok_0;
    known.insert(key, seen(known_as(known, key), record, seed, now))
}

/// What is known once a node was recorded that can be. A node that is new was seen before as often
/// as its identifier is in `earlier`.
pub open spec fn with_sighting(
    known: Map<Seq<char>, CandidateView>,
    earlier: Seq<Seq<char>>,
    record: NodeRecordView,
    seed: bool,
    now: u64,
) -> Map<Seq<char>, CandidateView> {
    let key = record.key_id->Ok_0;
    let after = with_record(known, record, seed, now);
    if known.dom().contains(key) {
        after
    } else {
        after.insert(key, sighted(after[key], times(earlier, key)))
    }
}

/// What is known once nodes were recorded one after the other, up to the first that cannot be,
/// and why that one cannot.
pub open spec fn with_records(
    known: Map<Seq<char>, CandidateView>,
    earlier: Seq<Seq<char>>,
    records: Seq<NodeRecordView>,
    seed: bool,
    now: u64,
) -> (Map<Seq<char>, CandidateView>, Option<ErrorView>)
    decreases records.len(),
{
    if records.len() == 0 {
        (known, None)
    } else {
        let (before, error) = with_records(known, earlier, records.drop_last(), seed, now);
        if error is Some {
            (before, error)
        } else if record_error(records.last()) is Some {
            (before, record_error(records.last()))
        } else {
            (with_sighting(before, earlier, records.last(), seed, now), None)
        }
    }
}

/// What is known once a node was called, if it is known at all.
pub open spec fn with_outcome(
    known: Map<Seq<char>, CandidateView>,
    key: Seq<char>,
    outcome: Outcome,
    silence: Seq<char>,
) -> Map<Seq<char>, CandidateView> {
    if known.dom().contains(key) {
        known.insert(key, called(known[key], outcome, silence))
    } else {
        known
    }
}

/// What the records of a list hold.
pub open spec fn record_views(records: Seq<NodeRecord>) -> Seq<NodeRecordView> {
    records.map_values(|record: NodeRecord| record@)
}

/// What the texts of a list hold.
pub open spec fn text_views(texts: Seq<String>) -> Seq<Seq<char>> {
    texts.map_values(|text: String| text@)
}

/// The candidates that are seed nodes, in order.
pub open spec fn seeds_of(list: Seq<CandidateView>) -> Seq<CandidateView> {
    list.filter(|candidate: CandidateView| candidate.seed)
}

/// The identifiers of the peers that a round queries: those of the seed nodes, or of all.
pub open spec fn targets_of(list: Seq<CandidateView>, recursive: bool) -> Seq<Seq<char>> {
    if recursive {
        keys_of(list)
    } else {
        keys_of(seeds_of(list))
    }
}

impl CandidateTable {
    /// The order and the keys that hold of every table.
    pub open spec fn wf(&self) -> bool {
        well_formed(self@)
    }

    /// A table without candidates.
    pub fn new() -> (r: CandidateTable)
        ensures
            r.wf(),
            r@ == Seq::<CandidateView>::empty(),
    {
        let r = CandidateTable { candidates: Vec::new() };
        assert(r@ =~= Seq::<CandidateView>::empty());
        r
    }

    /// The number of candidates.
    pub fn len(&self) -> (r: usize)
        ensures
            r == self@.len(),
    {
        self.candidates.len()
    }

    /// The candidate at a place.
    pub fn get(&self, i: usize) -> (r: &Candidate)
        requires
            i < self@.len(),
        ensures
            r@ == self@[i as int],
    {
        &self.candidates[i]
    }

    /// The first place whose identifier does not come before `key`.
    fn place_of(&self, key: &str) -> (r: usize)
        requires
            self.wf(),
        ensures
            r <= self@.len(),
            forall|i: int| 0 <= i < r ==> text_before((#[trigger] self@[i]).key_id, key@),
            forall|i: int|
                r <= i < self@.len() ==> !text_before((#[trigger] self@[i]).key_id, key@),
    {
        let mut i: usize = 0;
        while i < self.candidates.len() && comes_before(
            self.candidates[i].key_id.as_str(),
            key,
        )
            invariant
                i <= self@.len(),
                self@.len() == self.candidates@.len(),
                forall|j: int| 0 <= j < i ==> text_before((#[trigger] self@[j]).key_id, key@),
            decreases self@.len() - i,
        {
            i = i + 1;
        }
        proof {
            assert forall|j: int| i <= j < self@.len() implies !text_before(
                (#[trigger] self@[j]).key_id,
                key@,
            ) by {
                if i < j && text_before(self@[j].key_id, key@) {
                    assert(text_before(self@[i as int].key_id, self@[j].key_id));
                    law_text_order_is_transitive(
                        self@[i as int].key_id,
                        self@[j].key_id,
                        key@,
                    );
                }
            }
        }
        i
    }

    /// Where the candidate with that identifier stands, if there is one.
    pub fn find(&self, key: &str) -> (r: Option<usize>)
        requires
            self.wf(),
        ensures
            match r {
                Some(i) => stands_at(self@, key@, i as int),
                None => !by_key(self@).dom().contains(key@),
            },
    {
        let i: usize = self.place_of(key);
        if i < self.candidates.len() && same_text(self.candidates[i].key_id.as_str(), key) {
            return Some(i);
        }
        proof {
            if by_key(self@).dom().contains(key@) {
                let j = choose|j: int| #[trigger] stands_at(self@, key@, j);
                assert(stands_at(self@, key@, j));
                law_text_order_is_strict(key@, key@);
                if j < i {
                    assert(text_before(self@[j].key_id, key@));
                } else if i < j {
                    assert(text_before(self@[i as int].key_id, self@[j].key_id));
                }
            }
        }
        None
    }

    /// Adds a candidate whose identifier is new.
    fn add(&mut self, candidate: Candidate)
        requires
            old(self).wf(),
            !by_key(old(self)@).dom().contains(candidate@.key_id),
            candidate@.node.id is Ed25519,
        ensures
            final(self).wf(),
            by_key(final(self)@) == by_key(old(self)@).insert(candidate@.key_id, candidate@),
    {
        let i: usize = self.place_of(candidate.key_id.as_str());
        let ghost before = self@;
        proof {
            assert forall|j: int| i <= j < before.len() implies text_before(
                candidate@.key_id,
                (#[trigger] before[j]).key_id,
            ) by {
                lemma_by_key_at(before, j);
                law_text_order_is_total(candidate@.key_id, before[j].key_id);
            }
            lemma_by_key_insert(before, i as int, candidate@);
        }
        self.candidates.insert(i, candidate);
        assert(self@ =~= before.insert(i as int, candidate@));
    }

    /// The candidate with that identifier, if there is one, to be changed.
    pub fn find_candidate_by_key_mut<'a>(&'a mut self, key: &str) -> (r: Option<&'a mut Candidate>)
        requires
            old(self).wf(),
        ensures
            match r {
                Some(candidate) => {
                    &&& known_as(by_key(old(self)@), key@) == Some(candidate@)
                    &&& final(candidate)@.key_id == key@
                        && final(candidate)@.node.id is Ed25519 ==> {
                        &&& final(self).wf()
                        &&& keys_of(final(self)@) == keys_of(old(self)@)
                        &&& by_key(final(self)@) == by_key(old(self)@).insert(
                            key@,
                            final(candidate)@,
                        )
                    }
                },
                None => {
                    &&& known_as(by_key(old(self)@), key@) is None
                    &&& *final(self) == *old(self)
                },
            },
    {
        match self.find(key) {
            Some(i) => {
                let ghost before = self@;
                let ghost all = self.candidates@;
                proof {
                    lemma_by_key_at(before, i as int);
                    assert forall|candidate: Candidate| candidate@.key_id == key@ implies {
                        let after = (#[trigger] all.update(i as int, candidate)).map_values(
                            |candidate: Candidate| candidate@,
                        );
                        &&& ascending(after)
                        &&& keys_of(after) == keys_of(before)
                        &&& by_key(after) == by_key(before).insert(key@, candidate@)
                        &&& after == before.update(i as int, candidate@)
                    } by {
                        let after = all.update(i as int, candidate).map_values(
                            |candidate: Candidate| candidate@,
                        );
                        assert(after =~= before.update(i as int, candidate@));
                        lemma_by_key_update(before, i as int, candidate@);
                        assert(keys_of(after) =~= keys_of(before));
                    }
                }
                let candidate = &mut self.candidates[i];
                Some(candidate)
            },
            None => None,
        }
    }
}

/// Records that a node was seen at `now`, as one of the seed nodes or not. What was known of it
/// is brought up to date; a node that was not known becomes a candidate.
pub fn record_candidate(
    candidates: &mut CandidateTable,
    record: NodeRecord,
    seed: bool,
    now: u64,
) -> (r: Result<(), BuildError>)
    requires
        old(candidates).wf(),
    ensures
        final(candidates).wf(),
        match record_error(record@) {
            Some(wrong) => {
                &&& r matches Err(error)
                &&& error@ == wrong
                &&& *final(candidates) == *old(candidates)
            },
            None => {
                &&& r is Ok
                &&& by_key(final(candidates)@) == with_record(
                    by_key(old(candidates)@),
                    record@,
                    seed,
                    now,
                )
            },
        },
{
    let NodeRecord { node, key_id, public_key, signature } = record;
    let key: String = match key_id {
        Ok(key) => key,
        Err(reason) => {
            return Err(BuildError::NoKeyId(reason));
        },
    };
    match node.id {
        PublicKey::Ed25519(_) => {},
        PublicKey::Unsupported => {
            return Err(BuildError::UnsupportedPublicKey);
        },
    }
    if let Some(candidate) = candidates.find_candidate_by_key_mut(key.as_str()) {
        candidate.node = node;
        candidate.public_key = public_key;
        candidate.signature = signature;
        candidate.last_seen_at = now;
        candidate.seen_count = count_up(candidate.seen_count);
        candidate.seed = candidate.seed || seed;
        return Ok(());
    }
    candidates.add(
        Candidate {
            node,
            key_id: key,
            public_key,
            signature,
            first_seen_at: now,
            last_seen_at: now,
            seen_count: 1,
            success_count: 0,
            seed,
            last_error: None,
        },
    );
    Ok(())
}

/// Records that a node was seen at `now`, as `record_candidate` does. A node that is new was seen
/// before as often as its identifier is in `earlier`, each time as one of the seed nodes.
pub fn record_sighting(
    candidates: &mut CandidateTable,
    earlier: &Vec<String>,
    record: NodeRecord,
    seed: bool,
    now: u64,
) -> (r: Result<(), BuildError>)
    requires
        old(candidates).wf(),
    ensures
        final(candidates).wf(),
        match record_error(record@) {
            Some(wrong) => {
                &&& r matches Err(error)
                &&& error@ == wrong
                &&& *final(candidates) == *old(candidates)
            },
            None => {
                &&& r is Ok
                &&& by_key(final(candidates)@) == with_sighting(
                    by_key(old(candidates)@),
                    text_views(earlier@),
                    record@,
                    seed,
                    now,
                )
            },
        },
{
    let new_key: Option<String> = match &record.key_id {
        Ok(key) => match candidates.find(key.as_str()) {
            Some(_) => None,
            None => Some(key.clone()),
        },
        Err(_) => None,
    };
    let r = record_candidate(candidates, record, seed, now);
    if r.is_err() {
        return r;
    }
    if let Some(key) = new_key {
        let count: u32 = times_in(earlier, key.as_str());
        if let Some(candidate) = candidates.find_candidate_by_key_mut(key.as_str()) {
            candidate.seed = candidate.seed || count > 0;
            candidate.seen_count = add_up(candidate.seen_count, count);
        }
    }
    Ok(())
}

/// Records nodes one after the other, up to the first that cannot be recorded. One that is new was
/// seen before as often as its identifier is in `earlier`.
pub fn record_nodes(
    candidates: &mut CandidateTable,
    earlier: &Vec<String>,
    records: Vec<NodeRecord>,
    seed: bool,
    now: u64,
) -> (r: Result<(), BuildError>)
    requires
        old(candidates).wf(),
    ensures
        final(candidates).wf(),
        ({
            let (known, wrong) = with_records(
                by_key(old(candidates)@),
                text_views(earlier@),
                record_views(records@),
                seed,
                now,
            );
            &&& by_key(final(candidates)@) == known
            &&& match r {
                Ok(_) => wrong is None,
                Err(error) => wrong == Some(error@),
            }
        }),
{
    let ghost before = by_key(candidates@);
    let ghost views = record_views(records@);
    assert(views.take(0) =~= seq![]);
    for record in it: records
        invariant
            candidates.wf(),
            before == by_key(old(candidates)@),
            views == record_views(records@),
            views == record_views(it.seq()),
            with_records(before, text_views(earlier@), views.take(it.index()), seed, now) == (
                by_key(candidates@),
                None::<ErrorView>,
            ),
    {
        let ghost i = it.index();
        proof {
            assert(views.take(i + 1).drop_last() =~= views.take(i));
            assert(views.take(i + 1).last() == record@);
        }
        if let Err(error) = record_sighting(candidates, earlier, record, seed, now) {
            proof {
                lemma_error_stays(before, text_views(earlier@), views, i + 1, seed, now);
            }
            return Err(error);
        }
    }
    assert(views.take(views.len() as int) =~= views);
    Ok(())
}

/// What stops a recording is the first node that cannot be recorded, whatever is known.
pub proof fn lemma_recording_stops_at_first_error(
    known: Map<Seq<char>, CandidateView>,
    earlier: Seq<Seq<char>>,
    records: Seq<NodeRecordView>,
    seed: bool,
    now: u64,
)
    ensures
        with_records(known, earlier, records, seed, now).1 == first_error(records),
    decreases records.len(),
{
    if records.len() > 0 {
        lemma_recording_stops_at_first_error(known, earlier, records.drop_last(), seed, now);
    }
}

/// What stops the recording of a list stops that of a longer one.
proof fn lemma_error_stays(
    known: Map<Seq<char>, CandidateView>,
    earlier: Seq<Seq<char>>,
    records: Seq<NodeRecordView>,
    i: int,
    seed: bool,
    now: u64,
)
    requires
        0 <= i <= records.len(),
        with_records(known, earlier, records.take(i), seed, now).1 is Some,
    ensures
        with_records(known, earlier, records, seed, now) == with_records(
            known,
            earlier,
            records.take(i),
            seed,
            now,
        ),
    decreases records.len() - i,
{
    if i < records.len() {
        assert(records.take(i + 1).drop_last() =~= records.take(i));
        lemma_error_stays(known, earlier, records, i + 1, seed, now);
    } else {
        assert(records.take(i) =~= records);
    }
}

/// Records how a call to a peer went. `silence` is what is noted where nothing came back.
pub fn record_outcome(
    candidates: &mut CandidateTable,
    key: &str,
    outcome: Outcome,
    silence: &str,
)
    requires
        old(candidates).wf(),
    ensures
        final(candidates).wf(),
        keys_of(final(candidates)@) == keys_of(old(candidates)@),
        by_key(final(candidates)@) == with_outcome(
            by_key(old(candidates)@),
            key@,
            outcome,
            silence@,
        ),
{
    if let Some(candidate) = candidates.find_candidate_by_key_mut(key) {
        match outcome {
            Ok(true) => {
                candidate.success_count = count_up(candidate.success_count);
                candidate.last_error = None;
            },
            Ok(false) => {
                candidate.last_error = Some(silence.to_owned());
            },
            Err(error) => {
                candidate.last_error = Some(error.message());
            },
        }
    }
}

/// The identifiers of all candidates, in order.
pub fn candidate_keys(candidates: &CandidateTable) -> (r: Vec<String>)
    ensures
        text_views(r@) == keys_of(candidates@),
{
    query_targets(candidates, true)
}

/// The identifiers of the peers that a round queries, in order.
pub fn query_targets(candidates: &CandidateTable, recursive: bool) -> (r: Vec<String>)
    ensures
        text_views(r@) == targets_of(candidates@, recursive),
{
    let mut r: Vec<String> = Vec::new();
    let mut i: usize = 0;
    let ghost list = candidates@;
    proof {
        reveal(Seq::filter);
        assert(text_views(r@) =~= targets_of(list.take(0), recursive));
    }
    while i < candidates.len()
        invariant
            i <= list.len(),
            list == candidates@,
            text_views(r@) == targets_of(list.take(i as int), recursive),
        decreases list.len() - i,
    {
        let candidate = candidates.get(i);
        let ghost before = r@;
        proof {
            reveal(Seq::filter);
            assert(list.take(i + 1).drop_last() =~= list.take(i as int));
            assert(list.take(i + 1) =~= list.take(i as int).push(candidate@));
        }
        if recursive || candidate.seed {
            r.push(candidate.key_id.clone());
            assert(text_views(r@) =~= text_views(before).push(candidate@.key_id));
            assert(targets_of(list.take(i + 1), recursive) =~= targets_of(
                list.take(i as int),
                recursive,
            ).push(candidate@.key_id));
        }
        i = i + 1;
    }
    assert(list.take(i as int) =~= list);
    r
}

/// A table is what it holds under each identifier: there is one way to arrange it.
pub proof fn law_table_is_its_map(a: Seq<CandidateView>, b: Seq<CandidateView>)
    requires
        ascending(a),
        ascending(b),
        by_key(a) == by_key(b),
    ensures
        a == b,
{
    let before = |x: Seq<char>, y: Seq<char>| text_before(x, y);
    assert(asymmetric(before)) by {
        assert forall|x: Seq<char>, y: Seq<char>| !(#[trigger] before(x, y) && before(y, x)) by {
            law_text_order_is_strict(x, y);
        }
    }
    let (s, t) = (keys_of(a), keys_of(b));
    assert forall|x: Seq<char>| #[trigger] s.contains(x) <==> t.contains(x) by {
        if s.contains(x) {
            let i = choose|i: int| 0 <= i < s.len() && s[i] == x;
            lemma_by_key_at(a, i);
            let j = choose|j: int| #[trigger] stands_at(b, x, j);
            assert(stands_at(b, x, j));
            assert(t[j] == x);
        }
        if t.contains(x) {
            let i = choose|i: int| 0 <= i < t.len() && t[i] == x;
            lemma_by_key_at(b, i);
            let j = choose|j: int| #[trigger] stands_at(a, x, j);
            assert(stands_at(a, x, j));
            assert(s[j] == x);
        }
    }
    assert(strictly_sorted(s, before)) by {
        assert forall|i: int, j: int| 0 <= i < j < s.len() implies #[trigger] before(
            s[i],
            s[j],
        ) by {
            assert(text_before(a[i].key_id, a[j].key_id));
        }
    }
    assert(strictly_sorted(t, before)) by {
        assert forall|i: int, j: int| 0 <= i < j < t.len() implies #[trigger] before(
            t[i],
            t[j],
        ) by {
            assert(text_before(b[i].key_id, b[j].key_id));
        }
    }
    law_sorting_is_unique(s, t, before);
    assert forall|i: int| 0 <= i < a.len() implies a[i] == b[i] by {
        assert(s[i] == t[i]);
        lemma_by_key_at(a, i);
        lemma_by_key_at(b, i);
    }
    assert(s.len() == t.len());
    assert(a =~= b);
}

/// Being seen again changes neither when a node was first seen nor how it answered; a seed node
/// stays one.
pub proof fn law_seen_again_keeps_history(
    candidate: CandidateView,
    record: NodeRecordView,
    seed: bool,
    now: u64,
)
    ensures
        ({
            let again = seen(Some(candidate), record, seed, now);
            &&& again.key_id == candidate.key_id
            &&& again.first_seen_at == candidate.first_seen_at
            &&& again.success_count == candidate.success_count
            &&& again.last_error == candidate.last_error
            &&& again.seen_count >= candidate.seen_count
            &&& candidate.seed ==> again.seed
            &&& again.last_seen_at == now
        }),
{
}

/// No candidate is ever lost: what is known stays known while nodes are recorded.
pub proof fn law_records_lose_nothing(
    known: Map<Seq<char>, CandidateView>,
    earlier: Seq<Seq<char>>,
    records: Seq<NodeRecordView>,
    seed: bool,
    now: u64,
    key: Seq<char>,
)
    requires
        known.dom().contains(key),
    ensures
        ({
            let after = with_records(known, earlier, records, seed, now).0;
            &&& after.dom().contains(key)
            &&& after[key].first_seen_at == known[key].first_seen_at
            &&& after[key].success_count == known[key].success_count
            &&& after[key].last_error == known[key].last_error
            &&& after[key].seen_count >= known[key].seen_count
            &&& known[key].seed ==> after[key].seed
        }),
    decreases records.len(),
{
    if records.len() > 0 {
        law_records_lose_nothing(known, earlier, records.drop_last(), seed, now, key);
    }
}

/// A node becomes a seed node by the seed configuration alone: recording what the network knows
/// marks none but those that were there earlier, and all of these.
pub proof fn law_only_seeds_are_marked(
    known: Map<Seq<char>, CandidateView>,
    earlier: Seq<Seq<char>>,
    records: Seq<NodeRecordView>,
    now: u64,
    key: Seq<char>,
)
    requires
        with_records(known, earlier, records, false, now).0.dom().contains(key),
    ensures
        with_records(known, earlier, records, false, now).0[key].seed <==> if known.dom().contains(
            key,
        ) {
            known[key].seed
        } else {
            earlier.contains(key)
        },
    decreases records.len(),
{
    if records.len() > 0 {
        let before = with_records(known, earlier, records.drop_last(), false, now).0;
        if before.dom().contains(key) {
            law_only_seeds_are_marked(known, earlier, records.drop_last(), now, key);
        } else {
            lemma_times_contains(earlier, key);
            if known.dom().contains(key) {
                law_records_lose_nothing(known, earlier, records.drop_last(), false, now, key);
            }
        }
    }
}

/// A node that was recorded is known, as it was seen last; as a seed node if it was recorded as
/// one.
pub proof fn law_recorded_nodes_are_known(
    known: Map<Seq<char>, CandidateView>,
    earlier: Seq<Seq<char>>,
    records: Seq<NodeRecordView>,
    seed: bool,
    now: u64,
    i: int,
)
    requires
        with_records(known, earlier, records, seed, now).1 is None,
        0 <= i < records.len(),
    ensures
        ({
            let after = with_records(known, earlier, records, seed, now).0;
            let key = records[i].key_id->Ok_0;
            &&& records[i].key_id is Ok
            &&& after.dom().contains(key)
            &&& after[key].last_seen_at == now
            &&& seed ==> after[key].seed
            &&& (forall|j: int|
                i < j < records.len() ==> (#[trigger] records[j]).key_id != records[i].key_id)
                ==> after[key].node == records[i].node
        }),
    decreases records.len(),
{
    let rest = records.drop_last();
    if i < rest.len() {
        law_recorded_nodes_are_known(known, earlier, rest, seed, now, i);
        assert(rest[i] == records[i]);
        if forall|j: int|
            i < j < records.len() ==> (#[trigger] records[j]).key_id != records[i].key_id {
            assert forall|j: int| i < j < rest.len() implies (#[trigger] rest[j]).key_id
                != rest[i].key_id by {
                assert(records[j].key_id != records[i].key_id);
            }
            assert(records[records.len() - 1].key_id != records[i].key_id);
        }
    }
}

/// A node can be recorded exactly if its key has an identifier and is an Ed25519 key; what is wrong
/// with the identifier comes first.
pub proof fn law_recording_needs_an_identifier_and_a_key(record: NodeRecordView)
    ensures
        record_error(record) is None <==> record.key_id is Ok && record.node.id is Ed25519,
        record.key_id is Err ==> record_error(record) == Some(
            ErrorView::NoKeyId(record.key_id->Err_0),
        ),
        record.key_id is Ok && !(record.node.id is Ed25519) ==> record_error(record) == Some(
            ErrorView::UnsupportedPublicKey,
        ),
{
}

/// Of the nodes that cannot be recorded the first one counts.
pub proof fn law_first_error_counts(records: Seq<NodeRecordView>, i: int)
    requires
        0 <= i < records.len(),
        forall|j: int| 0 <= j < i ==> record_error(#[trigger] records[j]) is None,
    ensures
        record_error(records[i]) is Some ==> first_error(records) == record_error(records[i]),
        i == records.len() - 1 && record_error(records[i]) is None ==> first_error(records) is None,
    decreases records.len(),
{
    let rest = records.drop_last();
    if i < rest.len() {
        assert forall|j: int| 0 <= j < i implies record_error(#[trigger] rest[j]) is None by {
            assert(record_error(records[j]) is None);
        }
        law_first_error_counts(rest, i);
    } else if rest.len() > 0 {
        assert forall|j: int| 0 <= j < rest.len() - 1 implies record_error(
            #[trigger] rest[j],
        ) is None by {
            assert(record_error(records[j]) is None);
        }
        assert(record_error(records[rest.len() - 1]) is None);
        law_first_error_counts(rest, rest.len() - 1);
    }
}

/// Recording a node leaves what is known of all others as it is.
pub proof fn law_recording_leaves_others_alone(
    known: Map<Seq<char>, CandidateView>,
    earlier: Seq<Seq<char>>,
    record: NodeRecordView,
    seed: bool,
    now: u64,
    key: Seq<char>,
)
    requires
        record.key_id is Ok,
        record.key_id->Ok_0 != key,
    ensures
        ({
            let after = with_sighting(known, earlier, record, seed, now);
            &&& after.dom().contains(key) <==> known.dom().contains(key)
            &&& known.dom().contains(key) ==> after[key] == known[key]
        }),
{
}

} // verus!
