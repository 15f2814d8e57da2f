//! What a search server answers. Every request asks the local searcher for
//! one thing. A request that the searcher answers gets its content; a
//! request that it fails gets the empty response, which is a tag of its own
//! on the wire and never a payload.

use vstd::prelude::*;

verus! {

/// The response to a request.
#[derive(Debug, PartialEq, Eq)]
pub enum Response<T> {
    /// The answer to the request.
    Content(T),
    /// The request failed.
    Empty,
}

impl<T> Response<T> {
    /// The response to a request that the searcher ended with `outcome`: the
    /// content if it succeeded, the empty response if it failed.
    pub open spec fn of<E>(outcome: Result<T, E>) -> Response<T> {
        match outcome {
            Ok(content) => Response::Content(content),
            Err(_) => Response::Empty,
        }
    }

    /// The response to a request that the searcher ended with `outcome`.
    pub fn from_outcome<E>(outcome: Result<T, E>) -> (response: Response<T>)
        ensures
            response == Self::of(outcome),
    {
        match outcome {
            Ok(content) => Response::Content(content),
            Err(_) => Response::Empty,
        }
    }

    /// The content of the response, if it has one.
    pub fn content(self) -> (content: Option<T>)
        ensures
            content == match self {
                Response::Content(c) => Some(c),
                Response::Empty => None::<T>,
            },
    {
        match self {
            Response::Content(c) => Some(c),
            Response::Empty => None,
        }
    }
}

/// What a searcher is asked, with queries of type `Q` and selections of
/// websites of type `W`.
#[derive(Debug)]
pub enum Request<Q, W> {
    /// Search the shard for a query.
    Search(Q),
    /// Retrieve the given websites for a query.
    RetrieveWebsites { websites: W, query: String },
    /// Look up the page at an address.
    GetWebpage { url: String },
}

/// The response to a request, of the type that its kind asks for: a search
/// result of type `S`, retrieved pages of type `P`, or a page of type `G` if
/// there is one.
#[derive(Debug, PartialEq, Eq)]
pub enum Reply<S, P, G> {
    /// To a search.
    Search(Response<S>),
    /// To a retrieval.
    RetrieveWebsites(Response<Vec<P>>),
    /// To a lookup.
    GetWebpage(Response<Option<G>>),
}

/// Whether `reply` answers `request` from a searcher with the three given
/// operations: the reply is of the kind of the request and holds what the
/// operation of that kind returned. A search does not push similar results
/// down. A failed search or retrieval is answered with the empty response; a
/// lookup does not fail.
pub open spec fn answers<
    Q,
    W,
    S,
    P,
    G,
    E,
    FS: Fn(&Q, bool) -> Result<S, E>,
    FP: Fn(&W, &String) -> Result<Vec<P>, E>,
    FG: Fn(&String) -> Option<G>,
>(request: Request<Q, W>, search: FS, retrieve: FP, lookup: FG, reply: Reply<S, P, G>) -> bool {
    match request {
        Request::Search(query) => exists|outcome: Result<S, E>| #[trigger]
            call_ensures(search, (&query, false), outcome) && reply == Reply::<S, P, G>::Search(
                Response::of(outcome),
            ),
        Request::RetrieveWebsites { websites, query } => exists|outcome: Result<Vec<P>, E>| #[trigger]
            call_ensures(retrieve, (&websites, &query), outcome) && reply == Reply::<
                S,
                P,
                G,
            >::RetrieveWebsites(Response::of(outcome)),
        Request::GetWebpage { url } => exists|found: Option<G>| #[trigger]
            call_ensures(lookup, (&url,), found) && reply == Reply::<S, P, G>::GetWebpage(
                Response::Content(found),
            ),
    }
}

/// Answers `request` from a searcher with the three given operations.
pub fn respond<Q, W, S, P, G, E, FS, FP, FG>(
    request: &Request<Q, W>,
    search: FS,
    retrieve: FP,
    lookup: FG,
) -> (reply: Reply<S, P, G>) where
    FS: Fn(&Q, bool) -> Result<S, E>,
    FP: Fn(&W, &String) -> Result<Vec<P>, E>,
    FG: Fn(&String) -> Option<G>,

    requires
        forall|query: &Q, similar: bool| #[trigger] call_requires(search, (query, similar)),
        forall|websites: &W, query: &String| #[trigger] call_requires(retrieve, (websites, query)),
        forall|url: &String| #[trigger] call_requires(lookup, (url,)),
    ensures
        answers(*request, search, retrieve, lookup, reply),
{
    match request {
        Request::Search(query) => {
            let outcome: Result<S, E> = search(query, false);
            Reply::Search(Response::from_outcome(outcome))
        },
        Request::RetrieveWebsites { websites, query } => {
            let outcome: Result<Vec<P>, E> = retrieve(websites, query);
            Reply::RetrieveWebsites(Response::from_outcome(outcome))
        },
        Request::GetWebpage { url } => {
            let found: Option<G> = lookup(url);
            Reply::GetWebpage(Response::Content(found))
        },
    }
}

} // verus!
