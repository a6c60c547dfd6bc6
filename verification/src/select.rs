//! Which of the fit candidates go into the output, and in what order.

use crate::candidate::{ascending, CandidateTable, CandidateView};
use crate::config::AppConfig;
use crate::decision::{fit, inclusion_decision};
use crate::order::{
    asymmetric, law_sorting_is_unique, lemma_insert_keeps_sorted, lemma_longer_prefix,
    strictly_sorted,
};
use crate::text::{
    comes_before, law_text_order_is_strict, law_text_order_is_total, law_text_order_is_transitive,
    same_text, text_before,
};
use vstd::prelude::*;
use vstd::string::*;

verus! {

/// An order of candidates.
#[derive(Clone, Copy, Debug, PartialEq, Eq, Structural)]
pub enum NodeOrder {
    /// Most successes first, then most often seen, then by key.
    Rank,
    /// By key.
    PublicKey,
}

/// The candidate at `i` comes before the one at `j` by their keys. Where the keys are the same
/// the places decide.
pub open spec fn key_precedes(list: Seq<CandidateView>, i: int, j: int) -> bool {
    ||| text_before(list[i].public_key, list[j].public_key)
    ||| list[i].public_key == list[j].public_key && i < j
}

/// The candidate at `i` comes before the one at `j`.
pub open spec fn precedes(order: NodeOrder, list: Seq<CandidateView>, i: int, j: int) -> bool {
    match order {
        NodeOrder::Rank => {
            ||| list[i].success_count > list[j].success_count
            ||| {
                &&& list[i].success_count == list[j].success_count
                &&& {
                    ||| list[i].seen_count > list[j].seen_count
                    ||| list[i].seen_count == list[j].seen_count && key_precedes(list, i, j)
                }
            }
        },
        NodeOrder::PublicKey => key_precedes(list, i, j),
    }
}

/// The order of candidates as an order of their places.
pub open spec fn place_order(
    order: NodeOrder,
    list: Seq<CandidateView>,
) -> spec_fn(usize, usize) -> bool {
    |i: usize, j: usize| precedes(order, list, i as int, j as int)
}

/// Of two places at most one comes before the other.
pub proof fn law_order_is_strict(order: NodeOrder, list: Seq<CandidateView>, i: int, j: int)
    ensures
        !(precedes(order, list, i, j) && precedes(order, list, j, i)),
{
    law_text_order_is_strict(list[i].public_key, list[j].public_key);
    law_text_order_is_strict(list[j].public_key, list[i].public_key);
}

/// Of two different places one comes before the other.
pub proof fn law_order_is_total(order: NodeOrder, list: Seq<CandidateView>, i: int, j: int)
    requires
        i != j,
    ensures
        precedes(order, list, i, j) || precedes(order, list, j, i),
{
    law_text_order_is_total(list[i].public_key, list[j].public_key);
}

/// The order of places is transitive.
pub proof fn law_order_is_transitive(
    order: NodeOrder,
    list: Seq<CandidateView>,
    i: int,
    j: int,
    k: int,
)
    requires
        precedes(order, list, i, j),
        precedes(order, list, j, k),
    ensures
        precedes(order, list, i, k),
{
    if text_before(list[i].public_key, list[j].public_key) && text_before(
        list[j].public_key,
        list[k].public_key,
    ) {
        law_text_order_is_transitive(
            list[i].public_key,
            list[j].public_key,
            list[k].public_key,
        );
    }
}

proof fn lemma_place_order_is_asymmetric(order: NodeOrder, list: Seq<CandidateView>)
    ensures
        asymmetric(place_order(order, list)),
{
    let before = place_order(order, list);
    assert forall|i: usize, j: usize| !(#[trigger] before(i, j) && before(j, i)) by {
        law_order_is_strict(order, list, i as int, j as int);
    }
}

/// `r` is `places` in order.
pub open spec fn is_arrangement(
    order: NodeOrder,
    list: Seq<CandidateView>,
    places: Seq<usize>,
    r: Seq<usize>,
) -> bool {
    &&& strictly_sorted(r, place_order(order, list))
    &&& forall|x: usize| #[trigger] r.contains(x) <==> places.contains(x)
}

/// Places in order.
pub open spec fn arranged(
    order: NodeOrder,
    list: Seq<CandidateView>,
    places: Seq<usize>,
) -> Seq<usize> {
    choose|r: Seq<usize>| is_arrangement(order, list, places, r)
}

/// There is one arrangement.
proof fn lemma_arrangement_is_unique(
    order: NodeOrder,
    list: Seq<CandidateView>,
    places: Seq<usize>,
    r: Seq<usize>,
)
    requires
        is_arrangement(order, list, places, r),
    ensures
        r == arranged(order, list, places),
{
    let s = arranged(order, list, places);
    assert(is_arrangement(order, list, places, s));
    lemma_place_order_is_asymmetric(order, list);
    assert forall|x: usize| #[trigger] r.contains(x) <==> s.contains(x) by {
        assert(r.contains(x) <==> places.contains(x));
        assert(s.contains(x) <==> places.contains(x));
    }
    law_sorting_is_unique(r, s, place_order(order, list));
}

/// Places that candidates stand at.
pub open spec fn valid_places(list: Seq<CandidateView>, places: Seq<usize>) -> bool {
    forall|i: int| 0 <= i < places.len() ==> #[trigger] places[i] < list.len()
}

fn place_precedes(candidates: &CandidateTable, order: NodeOrder, i: usize, j: usize) -> (r: bool)
    requires
        i < candidates@.len(),
        j < candidates@.len(),
    ensures
        r == precedes(order, candidates@, i as int, j as int),
{
    let a = candidates.get(i);
    let b = candidates.get(j);
    match order {
        NodeOrder::Rank => {
            if a.success_count != b.success_count {
                return a.success_count > b.success_count;
            }
            if a.seen_count != b.seen_count {
                return a.seen_count > b.seen_count;
            }
        },
        NodeOrder::PublicKey => {},
    }
    comes_before(a.public_key.as_str(), b.public_key.as_str()) || (same_text(
        a.public_key.as_str(),
        b.public_key.as_str(),
    ) && i < j)
}

/// Puts places in order.
pub fn arrange(candidates: &CandidateTable, places: &Vec<usize>, order: NodeOrder) -> (r: Vec<
    usize,
>)
    requires
        valid_places(candidates@, places@),
        places@.no_duplicates(),
    ensures
        r@ == arranged(order, candidates@, places@),
        is_arrangement(order, candidates@, places@, r@),
        r@.len() == places@.len(),
        valid_places(candidates@, r@),
{
    let ghost list = candidates@;
    let ghost before = place_order(order, list);
    let mut r: Vec<usize> = Vec::new();
    let mut k: usize = 0;
    while k < places.len()
        invariant
            list == candidates@,
            before == place_order(order, list),
            valid_places(list, places@),
            places@.no_duplicates(),
            k <= places@.len(),
            r@.len() == k,
            strictly_sorted(r@, before),
            forall|x: usize| #[trigger] r@.contains(x) <==> places@.take(k as int).contains(x),
            valid_places(list, r@),
        decreases places@.len() - k,
    {
        let x: usize = places[k];
        let ghost sorted = r@;
        proof {
            assert(!sorted.contains(x)) by {
                if sorted.contains(x) {
                    assert(places@.take(k as int).contains(x));
                    let m = choose|m: int|
                        0 <= m < places@.take(k as int).len() && places@.take(k as int)[m] == x;
                    assert(places@[m] == places@[k as int]);
                }
            }
        }
        let mut p: usize = 0;
        while p < r.len() && place_precedes(candidates, order, r[p], x)
            invariant
                list == candidates@,
                before == place_order(order, list),
                valid_places(list, r@),
                x < list.len(),
                r@ == sorted,
                p <= sorted.len(),
                forall|i: int| 0 <= i < p ==> before(#[trigger] sorted[i], x),
            decreases sorted.len() - p,
        {
            p = p + 1;
        }
        proof {
            assert forall|i: int| p <= i < sorted.len() implies before(
                x,
                #[trigger] sorted[i],
            ) by {
                assert(sorted.contains(sorted[i]));
                assert(sorted.contains(sorted[p as int]));
                law_order_is_total(order, list, x as int, sorted[p as int] as int);
                if p < i {
                    assert(before(sorted[p as int], sorted[i]));
                    law_order_is_transitive(
                        order,
                        list,
                        x as int,
                        sorted[p as int] as int,
                        sorted[i] as int,
                    );
                }
            }
            lemma_insert_keeps_sorted(sorted, p as int, x, before);
        }
        r.insert(p, x);
        proof {
            assert forall|y: usize| #[trigger] r@.contains(y) <==> places@.take(
                k + 1,
            ).contains(y) by {
                assert(r@.contains(y) <==> y == x || sorted.contains(y));
                assert(sorted.contains(y) <==> places@.take(k as int).contains(y));
                lemma_longer_prefix(places@, k as int, y);
            }
            assert forall|i: int| 0 <= i < r@.len() implies #[trigger] r@[i] < list.len() by {
                if i != p {
                    assert(r@[i] == sorted[if i < p { i } else { i - 1 }]);
                }
            }
        }
        k = k + 1;
    }
    proof {
        assert(places@.take(k as int) =~= places@);
        assert(is_arrangement(order, list, places@, r@));
        lemma_arrangement_is_unique(order, list, places@, r@);
    }
    r
}

/// All places, in order.
pub open spec fn all_places(list: Seq<CandidateView>) -> Seq<usize> {
    Seq::new(list.len(), |i: int| i as usize)
}

/// The places of the candidates that are fit, in order.
pub open spec fn fit_places(list: Seq<CandidateView>, config: AppConfig, now: u64) -> Seq<usize> {
    all_places(list).filter(|i: usize| fit(list[i as int], config, now))
}

/// The fit candidates, best first.
pub open spec fn ranking(list: Seq<CandidateView>, config: AppConfig, now: u64) -> Seq<usize> {
    arranged(NodeOrder::Rank, list, fit_places(list, config, now))
}

/// How many of the candidates at these places are seed nodes.
pub open spec fn seed_count(list: Seq<CandidateView>, places: Seq<usize>) -> nat
    decreases places.len(),
{
    if places.len() == 0 {
        0
    } else {
        seed_count(list, places.drop_last()) + if list[places.last() as int].seed {
            1nat
        } else {
            0
        }
    }
}

/// Places without the seed nodes that come after the first `limit` seed nodes.
pub open spec fn within_seed_limit(
    list: Seq<CandidateView>,
    places: Seq<usize>,
    limit: nat,
) -> Seq<usize>
    decreases places.len(),
{
    if places.len() == 0 {
        seq![]
    } else {
        let kept = within_seed_limit(list, places.drop_last(), limit);
        if list[places.last() as int].seed && seed_count(list, places.drop_last()) >= limit {
            kept
        } else {
            kept.push(places.last())
        }
    }
}

/// The first `limit` elements, or all where there are fewer.
pub open spec fn at_most(places: Seq<usize>, limit: nat) -> Seq<usize> {
    if places.len() <= limit {
        places
    } else {
        places.take(limit as int)
    }
}

/// The fit candidates that the limit on seed nodes leaves, best first.
pub open spec fn admitted(list: Seq<CandidateView>, config: AppConfig, now: u64) -> Seq<usize> {
    within_seed_limit(list, ranking(list, config, now), config.max_seed_nodes_in_output as nat)
}

/// The candidates that go into the output, best first.
pub open spec fn selected(list: Seq<CandidateView>, config: AppConfig, now: u64) -> Seq<usize> {
    at_most(admitted(list, config, now), config.max_output_nodes as nat)
}

/// The places of all candidates, in order.
pub fn places_of(candidates: &CandidateTable) -> (r: Vec<usize>)
    ensures
        r@ == all_places(candidates@),
{
    let mut r: Vec<usize> = Vec::new();
    let mut i: usize = 0;
    while i < candidates.len()
        invariant
            i <= candidates@.len(),
            r@ =~= all_places(candidates@).take(i as int),
        decreases candidates@.len() - i,
    {
        r.push(i);
        i = i + 1;
    }
    assert(r@ =~= all_places(candidates@));
    r
}

proof fn lemma_filter_of_all_places(list: Seq<CandidateView>, keep: spec_fn(usize) -> bool, n: int)
    requires
        0 <= n <= list.len() <= usize::MAX,
    ensures
        ({
            let places = all_places(list).take(n).filter(keep);
            &&& forall|i: int, j: int|
                0 <= i < j < places.len() ==> #[trigger] places[i] < #[trigger] places[j]
            &&& forall|i: int| 0 <= i < places.len() ==> #[trigger] places[i] < n
            &&& forall|x: usize| #[trigger] places.contains(x) <==> x < n && keep(x)
        }),
    decreases n,
{
    reveal(Seq::filter);
    let all = all_places(list);
    let places = all.take(n).filter(keep);
    if n > 0 {
        lemma_filter_of_all_places(list, keep, n - 1);
        assert(all.take(n).drop_last() =~= all.take(n - 1));
        let before = all.take(n - 1).filter(keep);
        let last = (n - 1) as usize;
        assert(all.take(n).last() == last);
        assert forall|x: usize| #[trigger] places.contains(x) <==> x < n && keep(x) by {
            assert(before.contains(x) <==> x < n - 1 && keep(x));
            if keep(last) {
                assert(places == before.push(last));
                if before.contains(x) {
                    let i = choose|i: int| 0 <= i < before.len() && before[i] == x;
                    assert(places[i] == x);
                }
                if places.contains(x) && x != last {
                    let i = choose|i: int| 0 <= i < places.len() && places[i] == x;
                    assert(before[i] == x);
                }
                assert(places[before.len() as int] == last);
            }
        }
    } else {
        assert(all.take(0) =~= seq![]);
    }
}

/// The fit places are the places of fit candidates, each once.
pub proof fn lemma_fit_places(list: Seq<CandidateView>, config: AppConfig, now: u64)
    requires
        list.len() <= usize::MAX,
    ensures
        fit_places(list, config, now).no_duplicates(),
        valid_places(list, fit_places(list, config, now)),
        forall|x: usize| #[trigger]
            fit_places(list, config, now).contains(x) <==> x < list.len() && fit(
                list[x as int],
                config,
                now,
            ),
{
    let keep = |i: usize| fit(list[i as int], config, now);
    let n = list.len() as int;
    assert(all_places(list).take(n) =~= all_places(list));
    lemma_filter_of_all_places(list, keep, n);
}

/// The fit candidates, best first.
pub fn rank_fit(candidates: &CandidateTable, config: &AppConfig, now: u64) -> (r: Vec<usize>)
    ensures
        r@ == ranking(candidates@, *config, now),
        is_arrangement(
            NodeOrder::Rank,
            candidates@,
            fit_places(candidates@, *config, now),
            r@,
        ),
        valid_places(candidates@, r@),
        r@.len() <= candidates@.len() <= usize::MAX,
{
    let mut places: Vec<usize> = Vec::new();
    let mut i: usize = 0;
    let ghost list = candidates@;
    let ghost keep = |i: usize| fit(list[i as int], *config, now);
    proof {
        reveal(Seq::filter);
        assert(all_places(list).take(0) =~= seq![]);
    }
    let len: usize = candidates.len();
    while i < len
        invariant
            list == candidates@,
            len == list.len(),
            i <= list.len(),
            keep == (|i: usize| fit(list[i as int], *config, now)),
            places@ == all_places(list).take(i as int).filter(keep),
        decreases list.len() - i,
    {
        proof {
            reveal(Seq::filter);
            assert(all_places(list).take(i + 1).drop_last() =~= all_places(list).take(i as int));
            assert(all_places(list).take(i + 1).last() == i);
        }
        if inclusion_decision(candidates.get(i), config, now).included {
            places.push(i);
        }
        i = i + 1;
    }
    proof {
        assert(all_places(list).take(i as int) =~= all_places(list));
        all_places(list).lemma_filter_len(keep);
        lemma_fit_places(list, *config, now);
    }
    arrange(candidates, &places, NodeOrder::Rank)
}

/// Leaves out the seed nodes that come after the first `limit` seed nodes.
pub fn limit_seeds(candidates: &CandidateTable, places: &Vec<usize>, limit: usize) -> (r: Vec<
    usize,
>)
    requires
        valid_places(candidates@, places@),
    ensures
        r@ == within_seed_limit(candidates@, places@, limit as nat),
{
    let mut r: Vec<usize> = Vec::new();
    let mut seeds: usize = 0;
    let mut i: usize = 0;
    while i < places.len()
        invariant
            valid_places(candidates@, places@),
            i <= places@.len(),
            seeds <= i,
            seeds == seed_count(candidates@, places@.take(i as int)),
            r@ == within_seed_limit(candidates@, places@.take(i as int), limit as nat),
        decreases places@.len() - i,
    {
        proof {
            assert(places@.take(i + 1).drop_last() =~= places@.take(i as int));
            assert(places@.take(i + 1).last() == places@[i as int]);
        }
        let place: usize = places[i];
        if candidates.get(place).seed {
            if seeds < limit {
                r.push(place);
            }
            seeds = seeds + 1;
        } else {
            r.push(place);
        }
        i = i + 1;
    }
    assert(places@.take(i as int) =~= places@);
    r
}

/// The fit candidates that the limit on seed nodes leaves, best first.
pub fn admit_within_limit(candidates: &CandidateTable, config: &AppConfig, now: u64) -> (r: Vec<
    usize,
>)
    ensures
        r@ == admitted(candidates@, *config, now),
        valid_places(candidates@, r@),
        r@.len() <= candidates@.len() <= usize::MAX,
{
    let ranked = rank_fit(candidates, config, now);
    let r = limit_seeds(candidates, &ranked, config.max_seed_nodes_in_output);
    proof {
        lemma_seed_limit(
            candidates@,
            ranked@,
            config.max_seed_nodes_in_output as nat,
            place_order(NodeOrder::Rank, candidates@),
        );
        assert forall|i: int| 0 <= i < r@.len() implies #[trigger] r@[i] < candidates@.len() by {
            assert(r@.contains(r@[i]));
            let m = choose|m: int| 0 <= m < ranked@.len() && ranked@[m] == r@[i];
            assert(ranked@[m] < candidates@.len());
        }
    }
    r
}

/// The first `limit` places, or all where there are fewer.
pub fn keep_at_most(places: &Vec<usize>, limit: usize) -> (r: Vec<usize>)
    ensures
        r@ == at_most(places@, limit as nat),
{
    let mut r = places.clone();
    assert(r@ =~= places@);
    if r.len() > limit {
        r.truncate(limit);
    }
    r
}

/// The candidates that go into the output, best first.
pub fn select_output(candidates: &CandidateTable, config: &AppConfig, now: u64) -> (r: Vec<usize>)
    ensures
        r@ == selected(candidates@, *config, now),
        valid_places(candidates@, r@),
        r@.len() <= candidates@.len() <= usize::MAX,
{
    let admitted = admit_within_limit(candidates, config, now);
    keep_at_most(&admitted, config.max_output_nodes)
}

/// Where an element goes in a sequence in order.
proof fn lemma_insertion_point(
    order: NodeOrder,
    list: Seq<CandidateView>,
    s: Seq<usize>,
    x: usize,
    from: int,
) -> (p: int)
    requires
        strictly_sorted(s, place_order(order, list)),
        !s.contains(x),
        0 <= from <= s.len(),
        forall|i: int|
            0 <= i < from ==> precedes(order, list, #[trigger] s[i] as int, x as int),
    ensures
        0 <= p <= s.len(),
        forall|i: int| 0 <= i < p ==> precedes(order, list, #[trigger] s[i] as int, x as int),
        forall|i: int|
            p <= i < s.len() ==> precedes(order, list, x as int, #[trigger] s[i] as int),
    decreases s.len() - from,
{
    if from < s.len() && precedes(order, list, s[from] as int, x as int) {
        lemma_insertion_point(order, list, s, x, from + 1)
    } else {
        assert forall|i: int| from <= i < s.len() implies precedes(
            order,
            list,
            x as int,
            #[trigger] s[i] as int,
        ) by {
            assert(s.contains(s[from]));
            law_order_is_total(order, list, x as int, s[from] as int);
            if from < i {
                assert(place_order(order, list)(s[from], s[i]));
                law_order_is_transitive(order, list, x as int, s[from] as int, s[i] as int);
            }
        }
        from
    }
}

/// Places can be put in order.
pub proof fn lemma_arrangement_exists(
    order: NodeOrder,
    list: Seq<CandidateView>,
    places: Seq<usize>,
)
    requires
        places.no_duplicates(),
    ensures
        is_arrangement(order, list, places, arranged(order, list, places)),
        arranged(order, list, places).len() == places.len(),
    decreases places.len(),
{
    let before = place_order(order, list);
    if places.len() == 0 {
        let r = Seq::<usize>::empty();
        assert(is_arrangement(order, list, places, r));
        lemma_arrangement_is_unique(order, list, places, r);
    } else {
        let rest = places.drop_last();
        let x = places.last();
        lemma_arrangement_exists(order, list, rest);
        let s = arranged(order, list, rest);
        if s.contains(x) {
            assert(rest.contains(x));
            let m = choose|m: int| 0 <= m < rest.len() && rest[m] == x;
            assert(places[m] == places[places.len() - 1]);
        }
        let p = lemma_insertion_point(order, list, s, x, 0);
        lemma_insert_keeps_sorted(s, p, x, before);
        let r = s.insert(p, x);
        assert forall|y: usize| #[trigger] r.contains(y) <==> places.contains(y) by {
            assert(s.contains(y) <==> rest.contains(y));
            lemma_longer_prefix(places, places.len() - 1, y);
            assert(places.take(places.len() as int) =~= places);
            assert(places.take(places.len() - 1) =~= rest);
        }
        assert(is_arrangement(order, list, places, r));
        lemma_arrangement_is_unique(order, list, places, r);
    }
}

/// What the limit on seed nodes leaves of a sequence.
proof fn lemma_seed_limit(
    list: Seq<CandidateView>,
    places: Seq<usize>,
    limit: nat,
    before: spec_fn(usize, usize) -> bool,
)
    requires
        strictly_sorted(places, before),
    ensures
        ({
            let kept = within_seed_limit(list, places, limit);
            let seeds = seed_count(list, places);
            &&& kept.len() <= places.len()
            &&& seed_count(list, kept) == if seeds < limit {
                seeds
            } else {
                limit
            }
            &&& strictly_sorted(kept, before)
            &&& forall|x: usize| #[trigger] kept.contains(x) ==> places.contains(x)
            &&& forall|x: usize| #[trigger]
                places.contains(x) && !list[x as int].seed ==> kept.contains(x)
            &&& seeds <= limit ==> kept == places
        }),
    decreases places.len(),
{
    if places.len() > 0 {
        let rest = places.drop_last();
        let x = places.last();
        assert(strictly_sorted(rest, before)) by {
            assert forall|i: int, j: int| 0 <= i < j < rest.len() implies #[trigger] before(
                rest[i],
                rest[j],
            ) by {
                assert(before(places[i], places[j]));
            }
        }
        lemma_seed_limit(list, rest, limit, before);
        let kept_rest = within_seed_limit(list, rest, limit);
        let kept = within_seed_limit(list, places, limit);
        assert(places =~= rest.push(x));
        assert forall|y: usize| #[trigger] places.contains(y) <==> y == x || rest.contains(
            y,
        ) by {
            lemma_longer_prefix(places, places.len() - 1, y);
            assert(places.take(places.len() as int) =~= places);
            assert(places.take(places.len() - 1) =~= rest);
        }
        if kept != kept_rest || !(list[x as int].seed && seed_count(list, rest) >= limit) {
            assert(kept == kept_rest.push(x));
            assert(kept.drop_last() =~= kept_rest);
            assert forall|y: usize| #[trigger] kept.contains(y) <==> y == x
                || kept_rest.contains(y) by {
                lemma_longer_prefix(kept, kept.len() - 1, y);
                assert(kept.take(kept.len() as int) =~= kept);
                assert(kept.take(kept.len() - 1) =~= kept_rest);
            }
            assert(strictly_sorted(kept, before)) by {
                assert forall|i: int, j: int| 0 <= i < j < kept.len() implies #[trigger] before(
                    kept[i],
                    kept[j],
                ) by {
                    if j == kept_rest.len() {
                        assert(kept_rest.contains(kept_rest[i]));
                        assert(rest.contains(kept_rest[i]));
                        let m = choose|m: int| 0 <= m < rest.len() && rest[m] == kept_rest[i];
                        assert(before(places[m], places[places.len() - 1]));
                    } else {
                        assert(before(kept_rest[i], kept_rest[j]));
                    }
                }
            }
        }
    }
}

/// A shorter sequence has no more seed nodes.
proof fn lemma_fewer_seeds(list: Seq<CandidateView>, places: Seq<usize>, n: int)
    requires
        0 <= n <= places.len(),
    ensures
        seed_count(list, places.take(n)) <= seed_count(list, places),
    decreases places.len() - n,
{
    if n < places.len() {
        assert(places.take(n + 1).drop_last() =~= places.take(n));
        lemma_fewer_seeds(list, places, n + 1);
    } else {
        assert(places.take(n) =~= places);
    }
}

/// What a selection is made of.
pub proof fn lemma_selection(list: Seq<CandidateView>, config: AppConfig, now: u64)
    requires
        list.len() <= usize::MAX,
    ensures
        is_arrangement(
            NodeOrder::Rank,
            list,
            fit_places(list, config, now),
            ranking(list, config, now),
        ),
        strictly_sorted(admitted(list, config, now), place_order(NodeOrder::Rank, list)),
        forall|x: usize| #[trigger]
            admitted(list, config, now).contains(x) ==> x < list.len() && fit(
                list[x as int],
                config,
                now,
            ),
        forall|x: usize| #[trigger]
            selected(list, config, now).contains(x) ==> admitted(list, config, now).contains(x),
{
    lemma_fit_places(list, config, now);
    lemma_arrangement_exists(NodeOrder::Rank, list, fit_places(list, config, now));
    lemma_seed_limit(
        list,
        ranking(list, config, now),
        config.max_seed_nodes_in_output as nat,
        place_order(NodeOrder::Rank, list),
    );
    let all = admitted(list, config, now);
    let some = selected(list, config, now);
    assert forall|x: usize| #[trigger] all.contains(x) implies x < list.len() && fit(
        list[x as int],
        config,
        now,
    ) by {
        assert(ranking(list, config, now).contains(x));
        assert(fit_places(list, config, now).contains(x));
    }
    assert forall|x: usize| #[trigger] some.contains(x) implies all.contains(x) by {
        let i = choose|i: int| 0 <= i < some.len() && some[i] == x;
        assert(all[i] == x);
    }
}

/// The output holds no more nodes than the settings allow, and no more seed nodes.
pub proof fn law_selection_respects_limits(list: Seq<CandidateView>, config: AppConfig, now: u64)
    requires
        list.len() <= usize::MAX,
    ensures
        selected(list, config, now).len() <= config.max_output_nodes,
        seed_count(list, selected(list, config, now)) <= config.max_seed_nodes_in_output,
{
    lemma_selection(list, config, now);
    lemma_seed_limit(
        list,
        ranking(list, config, now),
        config.max_seed_nodes_in_output as nat,
        place_order(NodeOrder::Rank, list),
    );
    let all = admitted(list, config, now);
    if all.len() > config.max_output_nodes {
        lemma_fewer_seeds(list, all, config.max_output_nodes as int);
    }
}

/// The output holds no more nodes than there are candidates.
pub proof fn law_selection_is_no_larger(list: Seq<CandidateView>, config: AppConfig, now: u64)
    requires
        list.len() <= usize::MAX,
    ensures
        selected(list, config, now).len() <= list.len(),
{
    lemma_fit_places(list, config, now);
    lemma_arrangement_exists(NodeOrder::Rank, list, fit_places(list, config, now));
    lemma_seed_limit(
        list,
        ranking(list, config, now),
        config.max_seed_nodes_in_output as nat,
        place_order(NodeOrder::Rank, list),
    );
    all_places(list).lemma_filter_len(|i: usize| fit(list[i as int], config, now));
}

/// Every node of the output is a candidate that is fit for it.
pub proof fn law_selected_are_fit(list: Seq<CandidateView>, config: AppConfig, now: u64, k: int)
    requires
        list.len() <= usize::MAX,
        0 <= k < selected(list, config, now).len(),
    ensures
        selected(list, config, now)[k] < list.len(),
        fit(list[selected(list, config, now)[k] as int], config, now),
{
    lemma_selection(list, config, now);
    let some = selected(list, config, now);
    assert(some.contains(some[k]));
}

/// The output is in the order of rank: with more successes first, then more often seen, then by
/// key; no candidate occurs twice.
pub proof fn law_selection_is_ranked(
    list: Seq<CandidateView>,
    config: AppConfig,
    now: u64,
    i: int,
    j: int,
)
    requires
        list.len() <= usize::MAX,
        0 <= i < j < selected(list, config, now).len(),
    ensures
        precedes(
            NodeOrder::Rank,
            list,
            selected(list, config, now)[i] as int,
            selected(list, config, now)[j] as int,
        ),
        selected(list, config, now)[i] != selected(list, config, now)[j],
{
    lemma_selection(list, config, now);
    let all = admitted(list, config, now);
    assert(place_order(NodeOrder::Rank, list)(all[i], all[j]));
    law_order_is_strict(NodeOrder::Rank, list, all[i] as int, all[j] as int);
}

/// A fit candidate that is no seed node is left out only where the output is full of candidates
/// that rank before it.
pub proof fn law_selection_takes_the_best(
    list: Seq<CandidateView>,
    config: AppConfig,
    now: u64,
    x: usize,
    k: int,
)
    requires
        list.len() <= usize::MAX,
        x < list.len(),
        fit(list[x as int], config, now),
        !list[x as int].seed,
        !selected(list, config, now).contains(x),
    ensures
        selected(list, config, now).len() == config.max_output_nodes,
        0 <= k < selected(list, config, now).len() ==> precedes(
            NodeOrder::Rank,
            list,
            selected(list, config, now)[k] as int,
            x as int,
        ),
{
    lemma_selection(list, config, now);
    lemma_fit_places(list, config, now);
    lemma_seed_limit(
        list,
        ranking(list, config, now),
        config.max_seed_nodes_in_output as nat,
        place_order(NodeOrder::Rank, list),
    );
    let all = admitted(list, config, now);
    let some = selected(list, config, now);
    assert(fit_places(list, config, now).contains(x));
    assert(ranking(list, config, now).contains(x));
    assert(all.contains(x));
    let m = choose|m: int| 0 <= m < all.len() && all[m] == x;
    if m < some.len() {
        assert(some[m] == x);
    }
    if 0 <= k < some.len() {
        assert(place_order(NodeOrder::Rank, list)(all[k], all[m]));
    }
}

/// What the limit on seed nodes leaves of the first places, it leaves of all.
proof fn lemma_kept_stays(
    list: Seq<CandidateView>,
    places: Seq<usize>,
    limit: nat,
    n: int,
    x: usize,
)
    requires
        0 <= n <= places.len(),
        within_seed_limit(list, places.take(n), limit).contains(x),
    ensures
        within_seed_limit(list, places, limit).contains(x),
    decreases places.len() - n,
{
    if n < places.len() {
        assert(places.take(n + 1).drop_last() =~= places.take(n));
        let kept = within_seed_limit(list, places.take(n), limit);
        let more = within_seed_limit(list, places.take(n + 1), limit);
        let i = choose|i: int| 0 <= i < kept.len() && kept[i] == x;
        assert(more[i] == x);
        lemma_kept_stays(list, places, limit, n + 1, x);
    } else {
        assert(places.take(n) =~= places);
    }
}

/// The first `m` of the fit candidates are better than the one at `x`, and as many of them as the
/// settings allow are seed nodes.
pub open spec fn seeds_fill(
    list: Seq<CandidateView>,
    config: AppConfig,
    now: u64,
    x: usize,
    m: int,
) -> bool {
    let ranked = ranking(list, config, now);
    &&& 0 <= m <= ranked.len()
    &&& seed_count(list, ranked.take(m)) >= config.max_seed_nodes_in_output
    &&& forall|i: int|
        0 <= i < m ==> precedes(NodeOrder::Rank, list, #[trigger] ranked[i] as int, x as int)
}

/// A fit seed node is left out only where as many fit seed nodes as the settings allow rank before
/// it, or where the output is full of candidates that do.
pub proof fn law_seed_is_left_out_for_better(
    list: Seq<CandidateView>,
    config: AppConfig,
    now: u64,
    x: usize,
)
    requires
        list.len() <= usize::MAX,
        x < list.len(),
        fit(list[x as int], config, now),
        list[x as int].seed,
        !selected(list, config, now).contains(x),
    ensures
        ({
            let some = selected(list, config, now);
            ||| exists|m: int| #[trigger] seeds_fill(list, config, now, x, m)
            ||| {
                &&& some.len() == config.max_output_nodes
                &&& forall|k: int|
                    0 <= k < some.len() ==> precedes(
                        NodeOrder::Rank,
                        list,
                        #[trigger] some[k] as int,
                        x as int,
                    )
            }
        }),
{
    lemma_selection(list, config, now);
    lemma_fit_places(list, config, now);
    let limit = config.max_seed_nodes_in_output as nat;
    let ranked = ranking(list, config, now);
    let all = admitted(list, config, now);
    let some = selected(list, config, now);
    assert(fit_places(list, config, now).contains(x));
    assert(ranked.contains(x));
    let m = choose|m: int| 0 <= m < ranked.len() && ranked[m] == x;
    if seed_count(list, ranked.take(m)) >= limit {
        assert forall|i: int| 0 <= i < m implies precedes(
            NodeOrder::Rank,
            list,
            #[trigger] ranked[i] as int,
            x as int,
        ) by {
            assert(place_order(NodeOrder::Rank, list)(ranked[i], ranked[m]));
        }
        assert(seeds_fill(list, config, now, x, m));
    } else {
        assert(ranked.take(m + 1).drop_last() =~= ranked.take(m));
        let kept = within_seed_limit(list, ranked.take(m), limit);
        assert(within_seed_limit(list, ranked.take(m + 1), limit)[kept.len() as int] == x);
        lemma_kept_stays(list, ranked, limit, m + 1, x);
        let p = choose|p: int| 0 <= p < all.len() && all[p] == x;
        if p < some.len() {
            assert(some[p] == x);
        }
        assert forall|k: int| 0 <= k < some.len() implies precedes(
            NodeOrder::Rank,
            list,
            #[trigger] some[k] as int,
            x as int,
        ) by {
            assert(place_order(NodeOrder::Rank, list)(all[k], all[p]));
        }
    }
}

/// Where neither limit is reached, all fit candidates go into the output.
pub proof fn law_nothing_is_left_out_within_limits(
    list: Seq<CandidateView>,
    config: AppConfig,
    now: u64,
    x: usize,
)
    requires
        list.len() <= usize::MAX,
        seed_count(list, ranking(list, config, now)) <= config.max_seed_nodes_in_output,
        ranking(list, config, now).len() <= config.max_output_nodes,
    ensures
        selected(list, config, now).contains(x) <==> x < list.len() && fit(
            list[x as int],
            config,
            now,
        ),
{
    lemma_selection(list, config, now);
    lemma_fit_places(list, config, now);
    lemma_seed_limit(
        list,
        ranking(list, config, now),
        config.max_seed_nodes_in_output as nat,
        place_order(NodeOrder::Rank, list),
    );
    let ranked = ranking(list, config, now);
    assert(ranked.contains(x) <==> fit_places(list, config, now).contains(x));
}

/// Where two candidates of the output differ in their successes, the one with more comes first;
/// else, where they differ in how often they were seen, the one that was seen more often; else the
/// one whose key comes first, and last the one whose identifier does.
pub proof fn law_output_is_ordered_by_successes_sightings_and_key(
    list: Seq<CandidateView>,
    config: AppConfig,
    now: u64,
    i: int,
    j: int,
)
    requires
        ascending(list),
        list.len() <= usize::MAX,
        0 <= i < j < selected(list, config, now).len(),
    ensures
        ({
            let some = selected(list, config, now);
            let (a, b) = (list[some[i] as int], list[some[j] as int]);
            &&& a.success_count >= b.success_count
            &&& a.success_count == b.success_count ==> a.seen_count >= b.seen_count
            &&& a.success_count == b.success_count && a.seen_count == b.seen_count ==> (
            a.public_key == b.public_key || text_before(a.public_key, b.public_key))
            &&& a.success_count == b.success_count && a.seen_count == b.seen_count
                && a.public_key == b.public_key ==> text_before(a.key_id, b.key_id)
        }),
{
    law_selection_is_ranked(list, config, now, i, j);
    law_selected_are_fit(list, config, now, i);
    law_selected_are_fit(list, config, now, j);
    let some = selected(list, config, now);
    let (a, b) = (list[some[i] as int], list[some[j] as int]);
    if a.success_count == b.success_count && a.seen_count == b.seen_count && a.public_key
        == b.public_key {
        law_text_order_is_strict(a.public_key, a.public_key);
    }
}

/// One candidate is no worse than another: by its successes, else by how often it was seen, else by
/// its key, and last by its identifier.
pub open spec fn no_worse(a: CandidateView, b: CandidateView) -> bool {
    ||| a.success_count > b.success_count
    ||| a.success_count == b.success_count && a.seen_count > b.seen_count
    ||| {
        &&& a.success_count == b.success_count
        &&& a.seen_count == b.seen_count
        &&& {
            ||| text_before(a.public_key, b.public_key)
            ||| a.public_key == b.public_key && text_before(a.key_id, b.key_id)
        }
    }
}

/// What ranks before a candidate is no worse.
pub proof fn lemma_precedes_is_no_worse(list: Seq<CandidateView>, i: int, j: int)
    requires
        ascending(list),
        0 <= i < list.len(),
        0 <= j < list.len(),
        precedes(NodeOrder::Rank, list, i, j),
    ensures
        no_worse(list[i], list[j]),
{
    if i < j {
        assert(text_before(list[i].key_id, list[j].key_id));
    }
}

/// The places of seed nodes among these.
pub open spec fn seed_places(list: Seq<CandidateView>, places: Seq<usize>) -> Seq<usize> {
    places.filter(|i: usize| list[i as int].seed)
}

proof fn lemma_seed_count(list: Seq<CandidateView>, places: Seq<usize>)
    ensures
        seed_count(list, places) == seed_places(list, places).len(),
    decreases places.len(),
{
    reveal(Seq::filter);
    if places.len() > 0 {
        lemma_seed_count(list, places.drop_last());
    }
}

/// The output has no more nodes than the settings allow, and no more of them are seed nodes than
/// the settings allow.
pub proof fn law_output_stays_within_both_limits(
    list: Seq<CandidateView>,
    config: AppConfig,
    now: u64,
)
    requires
        list.len() <= usize::MAX,
    ensures
        selected(list, config, now).len() <= config.max_output_nodes,
        selected(list, config, now).filter(|i: usize| list[i as int].seed).len()
            <= config.max_seed_nodes_in_output,
{
    law_selection_respects_limits(list, config, now);
    lemma_seed_count(list, selected(list, config, now));
}

/// A seed node that the limit leaves is one before which the limit was not reached.
proof fn lemma_kept_seed(
    list: Seq<CandidateView>,
    places: Seq<usize>,
    limit: nat,
    x: usize,
) -> (p: int)
    requires
        within_seed_limit(list, places, limit).contains(x),
        list[x as int].seed,
    ensures
        0 <= p < places.len(),
        places[p] == x,
        seed_count(list, places.take(p)) < limit,
    decreases places.len(),
{
    let kept = within_seed_limit(list, places, limit);
    let i = choose|i: int| 0 <= i < kept.len() && kept[i] == x;
    let rest = places.drop_last();
    let before = within_seed_limit(list, rest, limit);
    if i < before.len() {
        assert(before[i] == x);
        let p = lemma_kept_seed(list, rest, limit, x);
        assert(places.take(p) =~= rest.take(p));
        p
    } else {
        assert(places.take(places.len() - 1) =~= rest);
        places.len() - 1
    }
}

/// The limit leaves as many seed nodes as there are, or as it allows.
proof fn lemma_kept_count(list: Seq<CandidateView>, places: Seq<usize>, limit: nat)
    ensures
        seed_count(list, within_seed_limit(list, places, limit)) == if seed_count(list, places)
            < limit {
            seed_count(list, places)
        } else {
            limit
        },
    decreases places.len(),
{
    if places.len() > 0 {
        let before = within_seed_limit(list, places.drop_last(), limit);
        lemma_kept_count(list, places.drop_last(), limit);
        assert(before.push(places.last()).drop_last() =~= before);
    }
}

/// Where a longer sequence has more seed nodes, one of them is beyond the shorter one.
proof fn lemma_seed_beyond(list: Seq<CandidateView>, places: Seq<usize>, n: int) -> (p: int)
    requires
        0 <= n <= places.len(),
        seed_count(list, places.take(n)) < seed_count(list, places),
    ensures
        n <= p < places.len(),
        list[places[p] as int].seed,
    decreases places.len(),
{
    if n == places.len() {
        assert(places.take(n) =~= places);
        n
    } else {
        let rest = places.drop_last();
        assert(rest.take(n) =~= places.take(n));
        if list[places.last() as int].seed {
            places.len() - 1
        } else {
            lemma_seed_beyond(list, rest, n)
        }
    }
}

/// A fit candidate is left out only where the output is full of candidates that are no worse; or,
/// being a seed node, where the output has as many seed nodes as the settings allow, all of them no
/// worse.
pub proof fn law_left_out_for_no_worse(
    list: Seq<CandidateView>,
    config: AppConfig,
    now: u64,
    x: usize,
)
    requires
        ascending(list),
        list.len() <= usize::MAX,
        x < list.len(),
        fit(list[x as int], config, now),
        !selected(list, config, now).contains(x),
    ensures
        ({
            let some = selected(list, config, now);
            let seeds = some.filter(|i: usize| list[i as int].seed);
            ||| {
                &&& some.len() == config.max_output_nodes
                &&& forall|k: int|
                    0 <= k < some.len() ==> no_worse(
                        list[#[trigger] some[k] as int],
                        list[x as int],
                    )
            }
            ||| {
                &&& list[x as int].seed
                &&& seeds.len() == config.max_seed_nodes_in_output
                &&& forall|k: int|
                    0 <= k < some.len() && list[#[trigger] some[k] as int].seed ==> no_worse(
                        list[some[k] as int],
                        list[x as int],
                    )
            }
        }),
{
    lemma_selection(list, config, now);
    lemma_fit_places(list, config, now);
    let limit = config.max_seed_nodes_in_output as nat;
    let ranked = ranking(list, config, now);
    let all = admitted(list, config, now);
    let some = selected(list, config, now);
    let order = place_order(NodeOrder::Rank, list);
    lemma_seed_count(list, some);
    assert(fit_places(list, config, now).contains(x));
    assert(ranked.contains(x));
    let m = choose|m: int| 0 <= m < ranked.len() && ranked[m] == x;
    if !list[x as int].seed {
        assert forall|k: int| 0 <= k < some.len() implies no_worse(
            list[#[trigger] some[k] as int],
            list[x as int],
        ) by {
            law_selection_takes_the_best(list, config, now, x, k);
            law_selected_are_fit(list, config, now, k);
            lemma_precedes_is_no_worse(list, some[k] as int, x as int);
        }
        law_selection_takes_the_best(list, config, now, x, 0);
    } else if seed_count(list, ranked.take(m)) < limit {
        assert(ranked.take(m + 1).drop_last() =~= ranked.take(m));
        let kept = within_seed_limit(list, ranked.take(m), limit);
        assert(within_seed_limit(list, ranked.take(m + 1), limit)[kept.len() as int] == x);
        lemma_kept_stays(list, ranked, limit, m + 1, x);
        let p = choose|p: int| 0 <= p < all.len() && all[p] == x;
        if p < some.len() {
            assert(some[p] == x);
        }
        assert forall|k: int| 0 <= k < some.len() implies no_worse(
            list[#[trigger] some[k] as int],
            list[x as int],
        ) by {
            assert(order(all[k], all[p]));
            law_selected_are_fit(list, config, now, k);
            lemma_precedes_is_no_worse(list, some[k] as int, x as int);
        }
    } else {
        lemma_fewer_seeds(list, ranked, m);
        lemma_kept_count(list, ranked, limit);
        assert forall|y: usize| all.contains(y) && #[trigger] list[y as int].seed implies precedes(
            NodeOrder::Rank,
            list,
            y as int,
            x as int,
        ) by {
            let p = lemma_kept_seed(list, ranked, limit, y);
            if p >= m {
                assert(ranked.take(p).take(m) =~= ranked.take(m));
                lemma_fewer_seeds(list, ranked.take(p), m);
            }
            assert(order(ranked[p], ranked[m]));
        }
        if seed_count(list, some) == limit {
            assert forall|k: int|
                0 <= k < some.len() && list[#[trigger] some[k] as int].seed implies no_worse(
                list[some[k] as int],
                list[x as int],
            ) by {
                assert(some.contains(some[k]));
                let y = some[k];
                assert(all.contains(y) && list[y as int].seed);
                law_selected_are_fit(list, config, now, k);
                lemma_precedes_is_no_worse(list, y as int, x as int);
            }
        } else {
            let p = if some.len() == all.len() {
                assert(some =~= all);
                0
            } else {
                lemma_seed_limit(list, ranked, limit, order);
                lemma_fewer_seeds(list, all, some.len() as int);
                lemma_seed_beyond(list, all, some.len() as int)
            };
            let y = all[p];
            assert(all.contains(y) && list[y as int].seed);
            assert forall|k: int| 0 <= k < some.len() implies no_worse(
                list[#[trigger] some[k] as int],
                list[x as int],
            ) by {
                assert(order(all[k], all[p]));
                law_order_is_transitive(
                    NodeOrder::Rank,
                    list,
                    all[k] as int,
                    y as int,
                    x as int,
                );
                law_selected_are_fit(list, config, now, k);
                lemma_precedes_is_no_worse(list, some[k] as int, x as int);
            }
        }
    }
}

/// What the limit on seed nodes takes away is a fit seed node, and there are as many fit seed nodes
/// that are no worse as the settings allow.
pub proof fn law_seed_limit_takes_the_worst(
    list: Seq<CandidateView>,
    config: AppConfig,
    now: u64,
    x: usize,
)
    requires
        ascending(list),
        list.len() <= usize::MAX,
        x < list.len(),
        fit(list[x as int], config, now),
        !admitted(list, config, now).contains(x),
    ensures
        list[x as int].seed,
        exists|better: Seq<usize>| #[trigger]
            better.no_duplicates() && better.len() >= config.max_seed_nodes_in_output && forall|
                i: int,
            |
                0 <= i < better.len() ==> {
                    let y = #[trigger] better[i];
                    &&& y < list.len()
                    &&& y != x
                    &&& list[y as int].seed
                    &&& fit(list[y as int], config, now)
                    &&& no_worse(list[y as int], list[x as int])
                },
{
    lemma_selection(list, config, now);
    lemma_fit_places(list, config, now);
    let limit = config.max_seed_nodes_in_output as nat;
    let ranked = ranking(list, config, now);
    let order = place_order(NodeOrder::Rank, list);
    let is_seed = |i: usize| list[i as int].seed;
    assert(fit_places(list, config, now).contains(x));
    assert(ranked.contains(x));
    let m = choose|m: int| 0 <= m < ranked.len() && ranked[m] == x;
    if !list[x as int].seed || seed_count(list, ranked.take(m)) < limit {
        assert(ranked.take(m + 1).drop_last() =~= ranked.take(m));
        let kept = within_seed_limit(list, ranked.take(m), limit);
        assert(within_seed_limit(list, ranked.take(m + 1), limit)[kept.len() as int] == x);
        lemma_kept_stays(list, ranked, limit, m + 1, x);
    }
    let better = seed_places(list, ranked.take(m));
    lemma_seed_count(list, ranked.take(m));
    assert(ranked.take(m).no_duplicates()) by {
        assert forall|i: int, j: int| 0 <= i < j < m implies ranked[i] != ranked[j] by {
            assert(order(ranked[i], ranked[j]));
            law_order_is_strict(NodeOrder::Rank, list, ranked[i] as int, ranked[j] as int);
        }
    }
    lemma_filter_keeps_distinct(ranked.take(m), is_seed);
    assert forall|i: int| 0 <= i < better.len() implies {
        let y = #[trigger] better[i];
        &&& y < list.len()
        &&& y != x
        &&& list[y as int].seed
        &&& fit(list[y as int], config, now)
        &&& no_worse(list[y as int], list[x as int])
    } by {
        ranked.take(m).lemma_filter_pred(is_seed, i);
        let j = lemma_filtered_from(ranked.take(m), is_seed, i);
        assert(ranked[j] == better[i]);
        assert(ranked.contains(ranked[j]));
        assert(fit_places(list, config, now).contains(better[i]));
        assert(order(ranked[j], ranked[m]));
        law_order_is_strict(NodeOrder::Rank, list, ranked[j] as int, ranked[m] as int);
        lemma_precedes_is_no_worse(list, ranked[j] as int, x as int);
    }
    assert(better.no_duplicates());
}

proof fn lemma_filtered_from(s: Seq<usize>, keep: spec_fn(usize) -> bool, i: int) -> (j: int)
    requires
        0 <= i < s.filter(keep).len(),
    ensures
        0 <= j < s.len(),
        s[j] == s.filter(keep)[i],
    decreases s.len(),
{
    reveal(Seq::filter);
    let rest = s.drop_last();
    if i < rest.filter(keep).len() {
        lemma_filtered_from(rest, keep, i)
    } else {
        s.len() - 1
    }
}

proof fn lemma_filter_keeps_distinct(s: Seq<usize>, keep: spec_fn(usize) -> bool)
    requires
        s.no_duplicates(),
    ensures
        s.filter(keep).no_duplicates(),
    decreases s.len(),
{
    reveal(Seq::filter);
    if s.len() > 0 {
        let rest = s.drop_last();
        lemma_filter_keeps_distinct(rest, keep);
        let kept = rest.filter(keep);
        assert forall|i: int| 0 <= i < kept.len() implies kept[i] != s.last() by {
            let j = lemma_filtered_from(rest, keep, i);
            assert(s[j] != s[s.len() - 1]);
        }
    }
}

} // verus!
