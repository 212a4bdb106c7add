//! The route dispatcher: an ordered table of compiled patterns, consulted
//! first-match-wins in registration order.
//!
//! A handler is modelled by its outcome: it either produced a response,
//! declined (so that later matching routes keep being tried), or faulted
//! (which yields the fixed internal-fault response). The route that
//! decides a dispatch is the earliest registered route that matches the
//! request and whose handler did not decline; when every matching handler
//! declined, or nothing matched, the dispatch reports `NoRouteFound`.

use vstd::prelude::*;
use vstd::string::*;
use crate::pattern::{
    match_spec, pairs_view, split_path, split_path_spec, strs_view, Pattern,
};
use crate::{Response, ResponseBody};

verus! {

/// What one handler invocation came to.
pub enum HandlerOutcome {
    /// The handler produced this response; dispatch stops.
    Handled(Response),
    /// The handler declined; later matching routes keep being tried.
    Declined,
    /// The handler raised an unrecoverable fault; dispatch yields the
    /// fixed internal-fault response.
    Faulted,
}

/// What a whole dispatch came to.
pub enum DispatchResult {
    /// Some route's handler settled the request with this response.
    Done(Response),
    /// No registered route matched, or every matching handler declined.
    NoRouteFound,
}

/// Whether route `i` of the table matches the request.
pub open spec fn route_matches(
    routes: Seq<Pattern>,
    i: int,
    method: Seq<char>,
    segs: Seq<Seq<char>>,
) -> bool {
    match_spec(routes[i]@, method, segs) is Some
}

/// Whether every matching route's handler declined (including the case
/// of no matching route at all): exactly when dispatch reports
/// `NoRouteFound`.
pub open spec fn all_matches_declined(
    routes: Seq<Pattern>,
    outcomes: Seq<HandlerOutcome>,
    method: Seq<char>,
    segs: Seq<Seq<char>>,
) -> bool {
    forall|i: int| 0 <= i < routes.len() && #[trigger] route_matches(routes, i, method, segs)
        ==> outcomes[i] is Declined
}

/// Whether route `i` decides the dispatch: it matches, its handler did
/// not decline, and every earlier matching route's handler declined.
pub open spec fn decides(
    routes: Seq<Pattern>,
    outcomes: Seq<HandlerOutcome>,
    method: Seq<char>,
    segs: Seq<Seq<char>>,
    i: int,
) -> bool {
    &&& 0 <= i < routes.len()
    &&& route_matches(routes, i, method, segs)
    &&& !(outcomes[i] is Declined)
    &&& forall|k: int| 0 <= k < i && #[trigger] route_matches(routes, k, method, segs)
        ==> outcomes[k] is Declined
}

/// Whether `r` is the fixed response produced when a handler faults: an
/// empty 500.
pub open spec fn is_fault_response(r: Response) -> bool {
    &&& r.status_code == 500
    &&& r.headers@.len() == 0
    &&& r.data.data@.len() == 0
}

/// The fixed response produced at the dispatch boundary when a handler
/// faults.
pub fn internal_fault_response() -> (r: Response)
    ensures
        is_fault_response(r),
{
    Response { status_code: 500, headers: Vec::new(), data: ResponseBody::empty() }
}

/// An ordered table of routes. Registration order is part of the
/// contract: dispatch consults the routes in exactly this order. The
/// table is read-only after registration, so concurrent dispatches need
/// no synchronization.
pub struct Router {
    /// The registered patterns, in registration order.
    pub routes: Vec<Pattern>,
}

impl Router {
    /// An empty route table.
    pub fn new() -> (r: Router)
        ensures
            r.routes@.len() == 0,
    {
        Router { routes: Vec::new() }
    }

    /// Appends a route to the table.
    pub fn register(&mut self, pattern: Pattern)
        ensures
            final(self).routes@ == old(self).routes@.push(pattern),
    {
        self.routes.push(pattern);
    }

    /// The earliest route with index at least `start` that matches the
    /// request, with its parameter bindings.
    pub fn first_match_from(&self, start: usize, method: &str, segs: &Vec<String>) -> (r: Option<
        (usize, Vec<(String, String)>),
    >)
        ensures
            match r {
                Some(ib) => {
                    &&& start <= ib.0 < self.routes@.len()
                    &&& match_spec(self.routes@[ib.0 as int]@, method@, strs_view(segs@)) == Some(
                        pairs_view(ib.1@),
                    )
                    &&& forall|k: int| start <= k < ib.0 ==> !route_matches(
                        self.routes@,
                        k,
                        method@,
                        strs_view(segs@),
                    )
                },
                None => forall|k: int| start <= k < self.routes@.len() ==> !route_matches(
                    self.routes@,
                    k,
                    method@,
                    strs_view(segs@),
                ),
            },
    {
        let mut i: usize = start;
        while i < self.routes.len()
            invariant
                start <= i <= self.routes@.len() || (start > self.routes@.len() && i == start),
                forall|k: int| start <= k < i ==> !route_matches(
                    self.routes@,
                    k,
                    method@,
                    strs_view(segs@),
                ),
            decreases self.routes@.len() - i,
        {
            match self.routes[i].matches_segments(method, segs) {
                Some(bindings) => {
                    return Some((i, bindings));
                },
                None => {},
            }
            i = i + 1;
        }
        None
    }

    /// Settles a request given each handler's outcome: `outcomes[i]` is
    /// what route `i`'s handler would come to if invoked. The earliest
    /// matching route whose handler did not decline decides the dispatch;
    /// a `Handled` outcome is returned as is, a `Faulted` outcome becomes
    /// the fixed internal-fault response, and when every matching handler
    /// declined (or nothing matched) the dispatch reports `NoRouteFound`.
    pub fn dispatch_with_outcomes(&self, method: &str, path: &str, outcomes: Vec<HandlerOutcome>)
        -> (r: DispatchResult)
        requires
            outcomes@.len() == self.routes@.len(),
        ensures
            r is NoRouteFound <==> all_matches_declined(
                self.routes@,
                outcomes@,
                method@,
                split_path_spec(path@),
            ),
            forall|i: int|
                #[trigger] decides(self.routes@, outcomes@, method@, split_path_spec(path@), i)
                    ==> {
                    &&& (outcomes@[i] is Handled ==> r == DispatchResult::Done(
                        outcomes@[i]->Handled_0,
                    ))
                    &&& (outcomes@[i] is Faulted ==> r is Done && is_fault_response(r->Done_0))
                },
            r is Done ==> exists|i: int| #[trigger] decides(
                self.routes@,
                outcomes@,
                method@,
                split_path_spec(path@),
                i,
            ),
    {
        let ghost rm = self.routes@;
        let ghost om = outcomes@;
        let segs = split_path(path);
        let ghost sm = split_path_spec(path@);
        let n = self.routes.len();
        let mut start: usize = 0;
        loop
            invariant
                0 <= start <= rm.len(),
                n == rm.len(),
                rm == self.routes@,
                om == outcomes@,
                sm == split_path_spec(path@),
                strs_view(segs@) == sm,
                om.len() == rm.len(),
                forall|k: int| 0 <= k < start && #[trigger] route_matches(rm, k, method@, sm)
                    ==> om[k] is Declined,
            decreases rm.len() - start,
        {
            match self.first_match_from(start, method, &segs) {
                None => {
                    proof {
                        assert(all_matches_declined(rm, om, method@, sm));
                        assert forall|i: int| #[trigger] decides(rm, om, method@, sm, i)
                            implies false by {
                            assert(route_matches(rm, i, method@, sm));
                            assert(om[i] is Declined);
                        }
                    }
                    return DispatchResult::NoRouteFound;
                },
                Some((i, _params)) => {
                    let declined = match &outcomes[i] {
                        HandlerOutcome::Declined => true,
                        _ => false,
                    };
                    if declined {
                        start = i + 1;
                    } else {
                        proof {
                            assert(decides(rm, om, method@, sm, i as int));
                            assert forall|j: int| #[trigger] decides(rm, om, method@, sm, j)
                                implies j == i as int by {
                                if j < i as int {
                                    assert(route_matches(rm, j, method@, sm));
                                    assert(om[j] is Declined);
                                } else if j > i as int {
                                    assert(route_matches(rm, i as int, method@, sm));
                                    assert(om[i as int] is Declined);
                                }
                            }
                            assert(!all_matches_declined(rm, om, method@, sm));
                        }
                        let mut outs = outcomes;
                        let o = outs.remove(i);
                        match o {
                            HandlerOutcome::Handled(resp) => {
                                return DispatchResult::Done(resp);
                            },
                            HandlerOutcome::Faulted => {
                                return DispatchResult::Done(internal_fault_response());
                            },
                            HandlerOutcome::Declined => {
                                proof {
                                    assert(false);
                                }
                                return DispatchResult::NoRouteFound;
                            },
                        }
                    }
                },
            }
        }
    }
}

/// Dispatch is deterministic under registration order: of two routes that
/// both match the request, the earlier-registered one decides unless its
/// handler declined; and when every matching route before the later one
/// declined, the later one decides.
pub proof fn lemma_registration_order(
    routes: Seq<Pattern>,
    outcomes: Seq<HandlerOutcome>,
    method: Seq<char>,
    segs: Seq<Seq<char>>,
    i: int,
    j: int,
)
    requires
        0 <= i < j < routes.len(),
        route_matches(routes, i, method, segs),
        route_matches(routes, j, method, segs),
    ensures
        !(outcomes[i] is Declined) ==> !decides(routes, outcomes, method, segs, j),
        (!(outcomes[j] is Declined) && (forall|k: int|
            0 <= k < j && #[trigger] route_matches(routes, k, method, segs)
                ==> outcomes[k] is Declined)) ==> decides(routes, outcomes, method, segs, j),
{
}

} // verus!
