//! Requests to the daemon that are under way.

use crate::ids::{AssetUuid, LoadHandle};
use crate::responses::{DataResponse, MetadataResponse};
use vstd::prelude::*;

verus! {

/// How far a request has come.
#[derive(Debug)]
pub enum PollState<T> {
    /// It is not answered yet.
    NotReady,
    /// It is answered.
    Ready(T),
    /// It failed.
    Failed,
}

/// A request that is under way: a promise of type `P`, to be polled, what polling it last gave, and
/// what is to be remembered about it.
pub struct ResponsePromise<P, T, U> {
    /// The promise.
    pub promise: P,
    /// What polling the promise last gave.
    pub response: PollState<T>,
    /// What the request was about.
    pub user_data: U,
}

/// The requests that are under way. `D` and `M` are the promises of data and of metadata.
pub struct RpcRequests<D, M> {
    /// Requests for the data of a load.
    pub pending_data_requests: Vec<ResponsePromise<D, DataResponse, LoadHandle>>,
    /// Requests for the metadata of several loads.
    pub pending_metadata_requests: Vec<
        ResponsePromise<M, MetadataResponse, Vec<(AssetUuid, LoadHandle)>>,
    >,
}

impl<P, T, U> ResponsePromise<P, T, U> {
    /// A request that has not been polled.
    pub fn new(promise: P, user_data: U) -> (request: Self)
        ensures
            request.promise == promise,
            request.response is NotReady,
            request.user_data == user_data,
    {
        ResponsePromise { promise, response: PollState::NotReady, user_data }
    }

    /// Whether the request has come to an end.
    pub open spec fn is_settled(self) -> bool {
        !(self.response is NotReady)
    }

    /// The answer, if there is one, and what the request was about.
    pub open spec fn settlement(self) -> (Option<T>, U) {
        (
            match self.response {
                PollState::Ready(answer) => Some(answer),
                _ => None,
            },
            self.user_data,
        )
    }
}

/// The settlements of the requests from number `i` on, the last request first.
pub open spec fn settlements_from<P, T, U>(
    requests: Seq<ResponsePromise<P, T, U>>,
    i: int,
) -> Seq<(Option<T>, U)>
    decreases requests.len() - i,
{
    if i >= requests.len() {
        Seq::empty()
    } else if requests[i].is_settled() {
        settlements_from(requests, i + 1).push(requests[i].settlement())
    } else {
        settlements_from(requests, i + 1)
    }
}

/// The settlements of requests, the last request first.
pub open spec fn settlements<P, T, U>(requests: Seq<ResponsePromise<P, T, U>>) -> Seq<
    (Option<T>, U),
> {
    settlements_from(requests, 0)
}

/// What is left of requests when those that are settled, from number `i` on, are taken out, the
/// last request first. The place of a request that is taken out goes to the one at the end.
pub open spec fn unsettled_from<P, T, U>(
    requests: Seq<ResponsePromise<P, T, U>>,
    i: int,
) -> Seq<ResponsePromise<P, T, U>>
    decreases requests.len() - i,
{
    if i >= requests.len() {
        requests
    } else {
        let left = unsettled_from(requests, i + 1);
        if requests[i].is_settled() {
            left.update(i, left.last()).drop_last()
        } else {
            left
        }
    }
}

/// What is left of requests when those that are settled are taken out.
pub open spec fn unsettled<P, T, U>(requests: Seq<ResponsePromise<P, T, U>>) -> Seq<
    ResponsePromise<P, T, U>,
> {
    unsettled_from(requests, 0)
}

/// Takes out the requests that are settled.
pub fn process_pending_requests<P, T, U>(requests: &mut Vec<ResponsePromise<P, T, U>>) -> (settled:
    Vec<(Option<T>, U)>)
    ensures
        final(requests)@ == unsettled(old(requests)@),
        settled@ == settlements(old(requests)@),
{
    let mut settled: Vec<(Option<T>, U)> = Vec::new();
    // from the end, so that taking out requests does not disturb those still to be visited
    let mut i: usize = requests.len();
    while i > 0
        invariant
            i <= requests.len() <= old(requests).len(),
            forall|j: int| 0 <= j < i ==> requests@[j] == old(requests)@[j],
            requests@ == unsettled_from(old(requests)@, i as int),
            settled@ == settlements_from(old(requests)@, i as int),
        decreases i,
    {
        i = i - 1;
        let is_settled = match requests[i].response {
            PollState::NotReady => false,
            _ => true,
        };
        if is_settled {
            let request = requests.swap_remove(i);
            let answer = match request.response {
                PollState::Ready(answer) => Some(answer),
                _ => None,
            };
            settled.push((answer, request.user_data));
        }
    }
    settled
}

} // verus!
