//! A minimalist HTTP request-handling façade.
//!
//! The crate holds the route-matching engine and the session-management
//! subsystem of a small web framework: patterns such as `/users/<id:u32>`
//! are compiled and matched against request paths, an ordered route table
//! is consulted first-match-wins, and per-client sessions are kept in a
//! store keyed by randomly generated identifiers.

use vstd::prelude::*;
use vstd::string::*;

pub mod pattern;
pub mod router;
pub mod session;

pub use session::{generate_session_id, Session, SessionsManager};

verus! {

/// An error that one of your routes can return.
///
/// This is just a convenience enum and you don't need to use it in your
/// project if you don't want to.
#[derive(Clone, Debug, PartialEq, Eq, Structural)]
pub enum RouteError {
    /// Couldn't find a way to handle this request.
    NoRouteFound,
    /// The user input is wrong.
    WrongInput,
    /// The user must be logged in.
    LoginRequired,
    /// The user entered a wrong login or password.
    WrongLoginPassword,
    /// The user is logged in but shouldn't be there.
    NotAuthorized,
}

impl RouteError {
    /// A short human-readable description of the error.
    pub fn description(&self) -> (s: &'static str)
        ensures
            *self == RouteError::NoRouteFound ==> s@ == "Couldn't find a way to handle this request."@,
            *self == RouteError::WrongInput ==> s@ == "The body of the request is malformed or missing something."@,
            *self == RouteError::LoginRequired ==> s@ == "The client must be logged in before this request can be answered."@,
            *self == RouteError::WrongLoginPassword ==> s@ == "The client attempted to login but entered a wrong login or password."@,
            *self == RouteError::NotAuthorized ==> s@ == "The client is logged in but doesn't have the permission to access this resource."@,
    {
        match self {
            RouteError::NoRouteFound => "Couldn't find a way to handle this request.",
            RouteError::WrongInput => "The body of the request is malformed or missing something.",
            RouteError::LoginRequired => "The client must be logged in before this request can be answered.",
            RouteError::WrongLoginPassword => "The client attempted to login but entered a wrong login or password.",
            RouteError::NotAuthorized => "The client is logged in but doesn't have the permission to access this resource.",
        }
    }
}

/// An opaque type that represents the body of a response: a byte buffer
/// together with its known length.
#[derive(Debug)]
pub struct ResponseBody {
    /// The bytes of the body.
    pub data: Vec<u8>,
    /// The length of the body, when known in advance.
    pub data_length: Option<usize>,
}

impl ResponseBody {
    /// Builds a `ResponseBody` that doesn't return any data.
    pub fn empty() -> (r: ResponseBody)
        ensures
            r.data@ == Seq::<u8>::empty(),
            r.data_length == Some(0usize),
    {
        ResponseBody { data: Vec::new(), data_length: Some(0) }
    }

    /// Builds a new `ResponseBody` that returns the given data.
    pub fn from_data(data: Vec<u8>) -> (r: ResponseBody)
        ensures
            r.data@ == data@,
            r.data_length == Some(data@.len() as usize),
    {
        let len = data.len();
        ResponseBody { data, data_length: Some(len) }
    }

    /// Builds a new `ResponseBody` that returns an UTF-8 string.
    pub fn from_string(data: &str) -> (r: ResponseBody)
        ensures
            r.data@ == data.spec_bytes(),
            r.data_length == Some(data.spec_bytes().len() as usize),
    {
        let bytes = data.as_bytes_vec();
        ResponseBody::from_data(bytes)
    }
}

/// Contains a prototype of a response.
#[derive(Debug)]
pub struct Response {
    /// The status code to return to the user.
    pub status_code: u16,
    /// List of headers to be returned in the response.
    pub headers: Vec<(String, String)>,
    /// An opaque type that contains the body of the response.
    pub data: ResponseBody,
}

impl Response {
    /// Builds a default response to handle the given route error.
    ///
    /// Important: don't use this in a real website. This function is just a
    /// convenience when prototyping; for authentication-related errors you
    /// are strongly encouraged to handle them yourself.
    pub fn from_error(err: &RouteError) -> (r: Response)
        ensures
            *err == RouteError::NoRouteFound ==> r.status_code == 404,
            *err == RouteError::WrongInput ==> r.status_code == 400,
            *err == RouteError::LoginRequired ==> r.status_code == 401,
            *err == RouteError::WrongLoginPassword ==> r.status_code == 401,
            *err == RouteError::NotAuthorized ==> r.status_code == 403,
            r.headers@ == Seq::<(String, String)>::empty(),
            r.data.data@ == Seq::<u8>::empty(),
    {
        let status: u16 = match err {
            RouteError::NoRouteFound => 404,
            RouteError::WrongInput => 400,
            RouteError::LoginRequired => 401,
            RouteError::WrongLoginPassword => 401,
            RouteError::NotAuthorized => 403,
        };
        Response { status_code: status, headers: Vec::new(), data: ResponseBody::empty() }
    }

    /// Changes the status code of the response.
    pub fn with_status_code(self, code: u16) -> (r: Response)
        ensures
            r.status_code == code,
            r.headers == self.headers,
            r.data == self.data,
    {
        Response { status_code: code, headers: self.headers, data: self.data }
    }

    /// Builds a `Response` that redirects the user to another URL.
    pub fn redirect(target: &str) -> (r: Response)
        ensures
            r.status_code == 303,
            r.headers@.len() == 1,
            r.headers@[0].0@ == "Location"@,
            r.headers@[0].1@ == target@,
            r.data.data@ == Seq::<u8>::empty(),
    {
        let mut headers: Vec<(String, String)> = Vec::new();
        headers.push((String::from_str("Location"), String::from_str(target)));
        Response { status_code: 303, headers, data: ResponseBody::empty() }
    }

    /// Builds a `Response` that outputs HTML.
    pub fn html(content: &str) -> (r: Response)
        ensures
            r.status_code == 200,
            r.headers@.len() == 1,
            r.headers@[0].0@ == "Content-Type"@,
            r.headers@[0].1@ == "text/html; charset=utf8"@,
            r.data.data@ == content.spec_bytes(),
    {
        let mut headers: Vec<(String, String)> = Vec::new();
        headers.push(
            (String::from_str("Content-Type"), String::from_str("text/html; charset=utf8")),
        );
        Response { status_code: 200, headers, data: ResponseBody::from_string(content) }
    }

    /// Builds a `Response` that outputs plain text.
    pub fn text(text: &str) -> (r: Response)
        ensures
            r.status_code == 200,
            r.headers@.len() == 1,
            r.headers@[0].0@ == "Content-Type"@,
            r.headers@[0].1@ == "text/plain; charset=utf8"@,
            r.data.data@ == text.spec_bytes(),
    {
        let mut headers: Vec<(String, String)> = Vec::new();
        headers.push(
            (String::from_str("Content-Type"), String::from_str("text/plain; charset=utf8")),
        );
        Response { status_code: 200, headers, data: ResponseBody::from_string(text) }
    }

    /// Builds a `Response` that returns a `401 Not Authorized` status
    /// and a `WWW-Authenticate` header naming the realm.
    pub fn basic_http_auth_login_required(realm: &str) -> (r: Response)
        ensures
            r.status_code == 401,
            r.headers@.len() == 1,
            r.headers@[0].0@ == "WWW-Authenticate"@,
            r.headers@[0].1@ == "Basic realm=\""@ + realm@ + "\""@,
            r.data.data@ == Seq::<u8>::empty(),
    {
        let value = String::from_str("Basic realm=\"").concat(realm).concat("\"");
        let mut headers: Vec<(String, String)> = Vec::new();
        headers.push((String::from_str("WWW-Authenticate"), value));
        Response { status_code: 401, headers, data: ResponseBody::empty() }
    }
}

/// The ghost model of a request.
pub struct RequestModel {
    /// The request method.
    pub method: Seq<char>,
    /// The raw, percent-encoded URL.
    pub url: Seq<char>,
    /// The headers, in order.
    pub headers: Seq<(Seq<char>, Seq<char>)>,
    /// Whether the request came over HTTPS.
    pub https: bool,
    /// The request body.
    pub data: Seq<u8>,
    /// The client's address.
    pub remote_addr: Seq<char>,
}

/// Represents a request that your handler must answer to.
///
/// This can be either a real request (received by the HTTP server) or a
/// mock object created with one of the `fake_*` constructors.
pub struct Request {
    method: String,
    url: String,
    headers: Vec<(String, String)>,
    https: bool,
    data: Vec<u8>,
    remote_addr: String,
}

impl View for Request {
    type V = RequestModel;

    closed spec fn view(&self) -> RequestModel {
        RequestModel {
            method: self.method@,
            url: self.url@,
            headers: crate::pattern::pairs_view(self.headers@),
            https: self.https,
            data: self.data@,
            remote_addr: self.remote_addr@,
        }
    }
}

impl Request {
    /// Builds a fake HTTP request to be used during tests; the remote
    /// address of the client will be `127.0.0.1:12345`.
    pub fn fake_http(method: &str, url: &str, headers: Vec<(String, String)>, data: Vec<u8>)
        -> (r: Request)
        ensures
            r@.method == method@,
            r@.url == url@,
            r@.headers == crate::pattern::pairs_view(headers@),
            r@.https == false,
            r@.data == data@,
            r@.remote_addr == "127.0.0.1:12345"@,
    {
        Request {
            method: String::from_str(method),
            url: String::from_str(url),
            headers,
            https: false,
            data,
            remote_addr: String::from_str("127.0.0.1:12345"),
        }
    }

    /// Builds a fake HTTP request to be used during tests, with the
    /// given client address.
    pub fn fake_http_from(
        from: &str,
        method: &str,
        url: &str,
        headers: Vec<(String, String)>,
        data: Vec<u8>,
    ) -> (r: Request)
        ensures
            r@.method == method@,
            r@.url == url@,
            r@.headers == crate::pattern::pairs_view(headers@),
            r@.https == false,
            r@.data == data@,
            r@.remote_addr == from@,
    {
        Request {
            method: String::from_str(method),
            url: String::from_str(url),
            headers,
            https: false,
            data,
            remote_addr: String::from_str(from),
        }
    }

    /// Builds a fake HTTPS request to be used during tests; the remote
    /// address of the client will be `127.0.0.1:12345`.
    pub fn fake_https(method: &str, url: &str, headers: Vec<(String, String)>, data: Vec<u8>)
        -> (r: Request)
        ensures
            r@.method == method@,
            r@.url == url@,
            r@.headers == crate::pattern::pairs_view(headers@),
            r@.https == true,
            r@.data == data@,
            r@.remote_addr == "127.0.0.1:12345"@,
    {
        Request {
            method: String::from_str(method),
            url: String::from_str(url),
            headers,
            https: true,
            data,
            remote_addr: String::from_str("127.0.0.1:12345"),
        }
    }

    /// Builds a fake HTTPS request to be used during tests, with the
    /// given client address.
    pub fn fake_https_from(
        from: &str,
        method: &str,
        url: &str,
        headers: Vec<(String, String)>,
        data: Vec<u8>,
    ) -> (r: Request)
        ensures
            r@.method == method@,
            r@.url == url@,
            r@.headers == crate::pattern::pairs_view(headers@),
            r@.https == true,
            r@.data == data@,
            r@.remote_addr == from@,
    {
        Request {
            method: String::from_str(method),
            url: String::from_str(url),
            headers,
            https: true,
            data,
            remote_addr: String::from_str(from),
        }
    }

    /// Returns `true` if the request uses HTTPS instead of HTTP.
    pub fn secure(&self) -> (r: bool)
        ensures
            r == self@.https,
    {
        self.https
    }

    /// Returns the method of the request (`GET`, `POST`, etc.).
    pub fn method(&self) -> (r: &str)
        ensures
            r@ == self@.method,
    {
        self.method.as_str()
    }

    /// Returns the URL requested by the client. It is not decoded and
    /// thus can contain strings such as `%20`.
    pub fn raw_url(&self) -> (r: &str)
        ensures
            r@ == self@.url,
    {
        self.url.as_str()
    }

    /// Returns the URL requested by the client, percent-decoded once;
    /// non-unicode byte sequences come out as U+FFFD.
    pub fn url(&self) -> (r: String)
        ensures
            r@ == crate::pattern::percent_decoded(self@.url),
    {
        crate::pattern::decode_url(self.url.as_str())
    }

    /// Returns the value of the first header with this name, or `None`
    /// if no such header could be found.
    pub fn header(&self, key: &str) -> (r: Option<String>)
        ensures
            match r {
                Some(v) => crate::session::lookup_value(self@.headers, key@) == Some(v@),
                None => crate::session::lookup_value(self@.headers, key@) is None,
            },
    {
        let ghost hm = crate::pattern::pairs_view(self.headers@);
        let mut i: usize = 0;
        proof {
            assert(hm.skip(0) =~= hm);
        }
        while i < self.headers.len()
            invariant
                0 <= i <= self.headers@.len(),
                hm == crate::pattern::pairs_view(self.headers@),
                crate::session::lookup_value(hm, key@) == crate::session::lookup_value(
                    hm.skip(i as int),
                    key@,
                ),
            decreases self.headers@.len() - i,
        {
            let ghost sk = hm.skip(i as int);
            proof {
                assert(sk[0] == (self.headers@[i as int].0@, self.headers@[i as int].1@));
                assert(sk.drop_first() =~= hm.skip(i + 1));
            }
            if self.headers[i].0 == String::from_str(key) {
                return Some(self.headers[i].1.clone());
            }
            i = i + 1;
        }
        None
    }

    /// Returns a copy of the body of the request.
    pub fn data(&self) -> (r: Vec<u8>)
        ensures
            r@ == self@.data,
    {
        let mut out: Vec<u8> = Vec::new();
        let mut i: usize = 0;
        while i < self.data.len()
            invariant
                0 <= i <= self.data@.len(),
                out@ == self.data@.subrange(0, i as int),
            decreases self.data@.len() - i,
        {
            out.push(self.data[i]);
            proof {
                assert(out@ =~= self.data@.subrange(0, i + 1));
            }
            i = i + 1;
        }
        proof {
            assert(self.data@.subrange(0, self.data@.len() as int) =~= self.data@);
        }
        out
    }

    /// Returns the address of the client that made this request.
    pub fn remote_addr(&self) -> (r: &str)
        ensures
            r@ == self@.remote_addr,
    {
        self.remote_addr.as_str()
    }
}

} // verus!
