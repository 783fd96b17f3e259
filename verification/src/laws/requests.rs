//! No request is lost, and none is followed twice.

use crate::requests::{
    process_pending_requests, settlements, settlements_from, unsettled, unsettled_from,
    ResponsePromise,
};
use vstd::multiset::Multiset;
use vstd::prelude::*;

verus! {

/// Taking an element out and putting the last one in its place takes out that element and no other.
proof fn lemma_swap_remove<A>(s: Seq<A>, i: int)
    requires
        0 <= i < s.len(),
    ensures
        s.update(i, s.last()).drop_last().to_multiset() == s.to_multiset().remove(s[i]),
{
    broadcast use vstd::seq_lib::group_to_multiset_ensures;

    let t = s.drop_last();
    assert(t.push(s.last()) =~= s);
    vstd::seq_lib::to_multiset_build(t, s.last());
    if i == s.len() - 1 {
        assert(s.update(i, s.last()).drop_last() =~= s.remove(i));
        vstd::seq_lib::to_multiset_remove(s, i);
    } else {
        assert(s.update(i, s.last()).drop_last() =~= t.remove(i).insert(i, s.last()));
        vstd::seq_lib::to_multiset_remove(t, i);
        vstd::seq_lib::to_multiset_insert(t.remove(i), i, s.last());
        vstd::seq_lib::to_multiset_contains(t, t[i]);
        assert(t.contains(t[i]));
        assert(t.to_multiset().remove(t[i]).insert(s.last()) =~= t.to_multiset().insert(
            s.last(),
        ).remove(t[i]));
    }
}

/// The multiset of a sequence with an element in front.
proof fn lemma_front<A>(s: Seq<A>, i: int)
    requires
        0 <= i < s.len(),
    ensures
        s.skip(i).to_multiset() == s.skip(i + 1).to_multiset().insert(s[i]),
        s.take(i + 1).to_multiset() == s.take(i).to_multiset().insert(s[i]),
{
    vstd::seq_lib::to_multiset_insert(s.skip(i + 1), 0, s[i]);
    assert(s.skip(i + 1).insert(0, s[i]) =~= s.skip(i));
    vstd::seq_lib::to_multiset_build(s.take(i), s[i]);
    assert(s.take(i).push(s[i]) =~= s.take(i + 1));
}

proof fn lemma_unsettled_from<P, T, U>(requests: Seq<ResponsePromise<P, T, U>>, i: int)
    requires
        0 <= i <= requests.len(),
    ensures
        ({
            let left = unsettled_from(requests, i);
            &&& i <= left.len()
            &&& forall|j: int| 0 <= j < i ==> left[j] == requests[j]
            &&& left.to_multiset() == requests.take(i).to_multiset().add(
                requests.skip(i).to_multiset().filter(
                    |r: ResponsePromise<P, T, U>| !r.is_settled(),
                ),
            )
        }),
    decreases requests.len() - i,
{
    let open = |r: ResponsePromise<P, T, U>| !r.is_settled();
    if i == requests.len() {
        assert(requests.take(i) =~= requests);
        assert(requests.skip(i) =~= Seq::empty());
        vstd::seq_lib::to_multiset_len(requests.skip(i));
        assert(requests.skip(i).to_multiset() =~= Multiset::empty());
        assert(requests.to_multiset() =~= requests.take(i).to_multiset().add(
            requests.skip(i).to_multiset().filter(open),
        ));
    } else {
        lemma_unsettled_from(requests, i + 1);
        lemma_front(requests, i);
        let left = unsettled_from(requests, i + 1);
        let r = requests[i];
        let ahead = requests.take(i).to_multiset();
        let behind = requests.skip(i + 1).to_multiset();
        if r.is_settled() {
            lemma_swap_remove(left, i);
            assert(behind.insert(r).filter(open) =~= behind.filter(open));
            assert(ahead.insert(r).add(behind.filter(open)).remove(r) =~= ahead.add(
                behind.filter(open),
            ));
        } else {
            assert(behind.insert(r).filter(open) =~= behind.filter(open).insert(r));
            assert(ahead.insert(r).add(behind.filter(open)) =~= ahead.add(
                behind.filter(open).insert(r),
            ));
        }
    }
}

/// What is left under way is exactly what is not settled, each request as often as it was there.
pub proof fn law_unsettled_requests_stay<P, T, U>(requests: Seq<ResponsePromise<P, T, U>>)
    ensures
        unsettled(requests).to_multiset() == requests.to_multiset().filter(
            |r: ResponsePromise<P, T, U>| !r.is_settled(),
        ),
{
    let open = |r: ResponsePromise<P, T, U>| !r.is_settled();
    lemma_unsettled_from(requests, 0);
    assert(requests.skip(0) =~= requests);
    assert(requests.take(0) =~= Seq::empty());
    vstd::seq_lib::to_multiset_len(requests.take(0));
    assert(requests.take(0).to_multiset() =~= Multiset::empty());
    assert(unsettled(requests).to_multiset() =~= requests.to_multiset().filter(open));
}

/// What is followed is exactly what is settled, each request once, the last one first.
pub proof fn law_settled_requests_are_followed<P, T, U>(requests: Seq<ResponsePromise<P, T, U>>)
    ensures
        settlements(requests) == requests.filter(
            |r: ResponsePromise<P, T, U>| r.is_settled(),
        ).map_values(|r: ResponsePromise<P, T, U>| r.settlement()).reverse(),
{
    lemma_settlements_from(requests, 0);
    assert(requests.skip(0) =~= requests);
}

proof fn lemma_settlements_from<P, T, U>(requests: Seq<ResponsePromise<P, T, U>>, i: int)
    requires
        0 <= i <= requests.len(),
    ensures
        settlements_from(requests, i) == requests.skip(i).filter(
            |r: ResponsePromise<P, T, U>| r.is_settled(),
        ).map_values(|r: ResponsePromise<P, T, U>| r.settlement()).reverse(),
    decreases requests.len() - i,
{
    let done = |r: ResponsePromise<P, T, U>| r.is_settled();
    let settle = |r: ResponsePromise<P, T, U>| r.settlement();
    reveal(Seq::filter);
    if i == requests.len() {
        assert(requests.skip(i) =~= Seq::empty());
        assert(settlements_from(requests, i) =~= requests.skip(i).filter(done).map_values(
            settle,
        ).reverse());
    } else {
        lemma_settlements_from(requests, i + 1);
        let rest = requests.skip(i + 1);
        let first = seq![requests[i]];
        assert(requests.skip(i) =~= first + rest);
        Seq::filter_distributes_over_add(first, rest, done);
        first.drop_last().lemma_filter_len(done);
        assert(first.last() == requests[i]);
        assert(first.filter(done) =~= if done(requests[i]) {
            first
        } else {
            Seq::empty()
        });
        assert(settlements_from(requests, i) =~= requests.skip(i).filter(done).map_values(
            settle,
        ).reverse());
    }
}

/// What came of a request, and what it was about: the answer if there is one, and none if it
/// failed.
pub open spec fn outcome_of<P, T, U>(request: ResponsePromise<P, T, U>) -> (Option<T>, U) {
    (
        if request.response is Ready {
            Some(request.response->Ready_0)
        } else {
            None
        },
        request.user_data,
    )
}

/// Whether `left` are those of `requests` that are still under way, each as often as it was there,
/// and `settled` is what came of all the others, each once, the last one first.
pub open spec fn are_divided<P, T, U>(
    requests: Seq<ResponsePromise<P, T, U>>,
    left: Seq<ResponsePromise<P, T, U>>,
    settled: Seq<(Option<T>, U)>,
) -> bool {
    &&& left.to_multiset() == requests.to_multiset().filter(
        |r: ResponsePromise<P, T, U>| r.response is NotReady,
    )
    &&& settled == requests.filter(
        |r: ResponsePromise<P, T, U>| r.response is Ready || r.response is Failed,
    ).map_values(|r: ResponsePromise<P, T, U>| outcome_of(r)).reverse()
}

/// What is left under way and what is settled are how requests are divided.
pub proof fn lemma_divided<P, T, U>(before: Seq<ResponsePromise<P, T, U>>)
    ensures
        are_divided(before, unsettled(before), settlements(before)),
{
    law_unsettled_requests_stay(before);
    law_settled_requests_are_followed(before);
    let open = |r: ResponsePromise<P, T, U>| !r.is_settled();
    let waiting = |r: ResponsePromise<P, T, U>| r.response is NotReady;
    assert(open =~= waiting);
    let done = |r: ResponsePromise<P, T, U>| r.is_settled();
    let over = |r: ResponsePromise<P, T, U>| r.response is Ready || r.response is Failed;
    assert(done =~= over);
    let settlement = |r: ResponsePromise<P, T, U>| r.settlement();
    let outcome = |r: ResponsePromise<P, T, U>| outcome_of(r);
    assert(settlement =~= outcome);
}

/// Requests that are answered or have failed are taken out and handed on, each once, with the
/// answer or without, the last one first; those that are neither stay under way, each as often as
/// it was there.
pub proof fn law_requests_are_divided<P, T, U>(
    requests: &mut Vec<ResponsePromise<P, T, U>>,
    settled: Vec<(Option<T>, U)>,
)
    requires
        call_ensures(process_pending_requests::<P, T, U>, (requests,), settled),
    ensures
        are_divided(old(requests)@, final(requests)@, settled@),
{
    lemma_divided(old(requests)@);
}

/// Whether `outcome` is what came of the request number `j`, which has come to an end.
pub open spec fn comes_from<P, T, U>(
    requests: Seq<ResponsePromise<P, T, U>>,
    j: int,
    outcome: (Option<T>, U),
) -> bool {
    &&& 0 <= j < requests.len()
    &&& !(requests[j].response is NotReady)
    &&& outcome == outcome_of(requests[j])
}

/// Whether `outcome` is what came of a request from number `i` on, which has come to an end.
pub open spec fn has_source<P, T, U>(
    requests: Seq<ResponsePromise<P, T, U>>,
    i: int,
    outcome: (Option<T>, U),
) -> bool {
    exists|j: int| #[trigger] comes_from(requests, j, outcome) && i <= j
}

/// What is followed comes from requests that have come to an end, and all of those are followed.
pub proof fn lemma_settlements_come_from<P, T, U>(requests: Seq<ResponsePromise<P, T, U>>, i: int)
    requires
        0 <= i <= requests.len(),
    ensures
        forall|k: int|
            0 <= k < settlements_from(requests, i).len() ==> has_source(
                requests,
                i,
                #[trigger] settlements_from(requests, i)[k],
            ),
        forall|j: int|
            i <= j < requests.len() && !((#[trigger] requests[j]).response is NotReady)
                ==> settlements_from(requests, i).contains(outcome_of(requests[j])),
    decreases requests.len() - i,
{
    if i < requests.len() {
        lemma_settlements_come_from(requests, i + 1);
        let rest = settlements_from(requests, i + 1);
        let all = settlements_from(requests, i);
        assert forall|k: int| 0 <= k < all.len() implies has_source(
            requests,
            i,
            #[trigger] all[k],
        ) by {
            if k < rest.len() {
                assert(all[k] == rest[k]);
                assert(has_source(requests, i + 1, rest[k]));
                let j = choose|j: int| #[trigger]
                    comes_from(requests, j, rest[k]) && i + 1 <= j;
                assert(comes_from(requests, j, all[k]));
            } else {
                assert(comes_from(requests, i, all[k]));
            }
        }
        assert forall|j: int|
            i <= j < requests.len() && !((#[trigger] requests[j]).response is NotReady) implies
            all.contains(outcome_of(requests[j])) by {
            if j == i {
                assert(all[rest.len() as int] == outcome_of(requests[j]));
            } else {
                let k = choose|k: int| 0 <= k < rest.len() && rest[k] == outcome_of(requests[j]);
                assert(all[k] == rest[k]);
            }
        }
    }
}

} // verus!
