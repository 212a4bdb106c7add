use rouille::pattern::Pattern;
use rouille::router::{DispatchResult, HandlerOutcome, Router};
use rouille::Response;

fn router_two_overlapping() -> Router {
    let mut router = Router::new();
    router.register(Pattern::new(Some(String::from("GET")), "/page/<n>").unwrap());
    router.register(Pattern::new(Some(String::from("GET")), "/page/home").unwrap());
    router
}

fn body_text(r: &Response) -> String {
    String::from_utf8(r.data.data.clone()).unwrap()
}

#[test]
fn earlier_registered_route_wins() {
    let router = router_two_overlapping();
    let outcomes = vec![
        HandlerOutcome::Handled(Response::text("first")),
        HandlerOutcome::Handled(Response::text("second")),
    ];
    match router.dispatch_with_outcomes("GET", "/page/home", outcomes) {
        DispatchResult::Done(resp) => assert_eq!(body_text(&resp), "first"),
        DispatchResult::NoRouteFound => panic!("expected a response"),
    }
}

#[test]
fn declined_handler_falls_through_to_later_route() {
    let router = router_two_overlapping();
    let outcomes = vec![
        HandlerOutcome::Declined,
        HandlerOutcome::Handled(Response::text("second")),
    ];
    match router.dispatch_with_outcomes("GET", "/page/home", outcomes) {
        DispatchResult::Done(resp) => assert_eq!(body_text(&resp), "second"),
        DispatchResult::NoRouteFound => panic!("expected a response"),
    }
}

#[test]
fn no_route_found_when_nothing_matches() {
    let router = router_two_overlapping();
    let outcomes = vec![
        HandlerOutcome::Handled(Response::text("first")),
        HandlerOutcome::Handled(Response::text("second")),
    ];
    match router.dispatch_with_outcomes("GET", "/other", outcomes) {
        DispatchResult::Done(_) => panic!("expected no route"),
        DispatchResult::NoRouteFound => {},
    }
}

#[test]
fn no_route_found_when_every_matching_handler_declines() {
    let router = router_two_overlapping();
    let outcomes = vec![HandlerOutcome::Declined, HandlerOutcome::Declined];
    match router.dispatch_with_outcomes("GET", "/page/home", outcomes) {
        DispatchResult::Done(_) => panic!("expected no route"),
        DispatchResult::NoRouteFound => {},
    }
}

#[test]
fn faulted_handler_yields_internal_error_response() {
    let router = router_two_overlapping();
    let outcomes = vec![
        HandlerOutcome::Faulted,
        HandlerOutcome::Handled(Response::text("second")),
    ];
    match router.dispatch_with_outcomes("GET", "/page/home", outcomes) {
        DispatchResult::Done(resp) => {
            assert_eq!(resp.status_code, 500);
            assert!(resp.data.data.is_empty());
        },
        DispatchResult::NoRouteFound => panic!("expected a response"),
    }
}

#[test]
fn method_filters_routes() {
    let mut router = Router::new();
    router.register(Pattern::new(Some(String::from("POST")), "/submit").unwrap());
    let outcomes = vec![HandlerOutcome::Handled(Response::text("posted"))];
    match router.dispatch_with_outcomes("GET", "/submit", outcomes) {
        DispatchResult::Done(_) => panic!("expected no route"),
        DispatchResult::NoRouteFound => {},
    }
}

#[test]
fn first_match_from_reports_least_index_and_params() {
    let router = router_two_overlapping();
    let segs = vec![String::from("page"), String::from("home")];
    let (i, params) = router.first_match_from(0, "GET", &segs).unwrap();
    assert_eq!(i, 0);
    assert_eq!(params[0].0, "n");
    assert_eq!(params[0].1, "home");
    let (j, params2) = router.first_match_from(1, "GET", &segs).unwrap();
    assert_eq!(j, 1);
    assert!(params2.is_empty());
    assert!(router.first_match_from(2, "GET", &segs).is_none());
}
