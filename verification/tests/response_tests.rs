use rouille::{Request, Response, ResponseBody, RouteError};

#[test]
fn from_error_maps_fixed_status_codes() {
    assert_eq!(Response::from_error(&RouteError::NoRouteFound).status_code, 404);
    assert_eq!(Response::from_error(&RouteError::WrongInput).status_code, 400);
    assert_eq!(Response::from_error(&RouteError::LoginRequired).status_code, 401);
    assert_eq!(Response::from_error(&RouteError::WrongLoginPassword).status_code, 401);
    assert_eq!(Response::from_error(&RouteError::NotAuthorized).status_code, 403);
}

#[test]
fn error_descriptions_are_stable() {
    assert_eq!(
        RouteError::NoRouteFound.description(),
        "Couldn't find a way to handle this request."
    );
    assert_eq!(
        RouteError::WrongInput.description(),
        "The body of the request is malformed or missing something."
    );
}

#[test]
fn redirect_sets_location_header() {
    let r = Response::redirect("/elsewhere");
    assert_eq!(r.status_code, 303);
    assert_eq!(r.headers.len(), 1);
    assert_eq!(r.headers[0].0, "Location");
    assert_eq!(r.headers[0].1, "/elsewhere");
    assert!(r.data.data.is_empty());
}

#[test]
fn html_and_text_set_content_type() {
    let h = Response::html("<p>hi</p>");
    assert_eq!(h.status_code, 200);
    assert_eq!(h.headers[0].0, "Content-Type");
    assert_eq!(h.headers[0].1, "text/html; charset=utf8");
    assert_eq!(h.data.data, b"<p>hi</p>");

    let t = Response::text("plain");
    assert_eq!(t.headers[0].1, "text/plain; charset=utf8");
    assert_eq!(t.data.data, b"plain");
}

#[test]
fn basic_auth_challenge_names_the_realm() {
    let r = Response::basic_http_auth_login_required("private");
    assert_eq!(r.status_code, 401);
    assert_eq!(r.headers[0].0, "WWW-Authenticate");
    assert_eq!(r.headers[0].1, "Basic realm=\"private\"");
}

#[test]
fn with_status_code_replaces_only_the_code() {
    let r = Response::text("ok").with_status_code(204);
    assert_eq!(r.status_code, 204);
    assert_eq!(r.headers[0].1, "text/plain; charset=utf8");
    assert_eq!(r.data.data, b"ok");
}

#[test]
fn response_bodies_know_their_length() {
    let e = ResponseBody::empty();
    assert!(e.data.is_empty());
    assert_eq!(e.data_length, Some(0));

    let d = ResponseBody::from_data(vec![1u8, 2, 3]);
    assert_eq!(d.data, vec![1u8, 2, 3]);
    assert_eq!(d.data_length, Some(3));

    let s = ResponseBody::from_string("abc");
    assert_eq!(s.data, b"abc");
    assert_eq!(s.data_length, Some(3));
}

#[test]
fn fake_request_exposes_its_parts() {
    let req = Request::fake_http(
        "GET",
        "/hello%20world",
        vec![(String::from("Host"), String::from("example"))],
        vec![1u8, 2],
    );
    assert_eq!(req.method(), "GET");
    assert_eq!(req.raw_url(), "/hello%20world");
    assert_eq!(req.url(), "/hello world");
    assert!(!req.secure());
    assert_eq!(req.data(), vec![1u8, 2]);
    assert_eq!(req.remote_addr(), "127.0.0.1:12345");
    assert_eq!(req.header("Host").unwrap(), "example");
    assert!(req.header("Cookie").is_none());
}

#[test]
fn fake_https_request_is_secure() {
    let req = Request::fake_https("GET", "/", vec![], vec![]);
    assert!(req.secure());
    let req2 = Request::fake_https_from("10.0.0.1:80", "GET", "/", vec![], vec![]);
    assert_eq!(req2.remote_addr(), "10.0.0.1:80");
    let req3 = Request::fake_http_from("10.0.0.2:81", "POST", "/x", vec![], vec![]);
    assert_eq!(req3.remote_addr(), "10.0.0.2:81");
    assert_eq!(req3.method(), "POST");
}
