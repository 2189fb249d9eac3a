//! The responses of a small web server.
use vstd::prelude::*;

verus! {

broadcast use vstd::string::to_string_from_display_ensures_for_str;

/// The outcome of a request: found (200) or not found (404).
#[derive(Debug, Clone, Copy, PartialEq, Eq)]
pub enum Status {
    Success,
    NotFound,
}

impl Status {
    /// The HTTP status line of the outcome.
    pub fn get_status_line(&self) -> (r: &'static str)
        ensures
            *self == Status::Success ==> r@ == "HTTP/1.1 200 OK"@,
            *self == Status::NotFound ==> r@ == "HTTP/1.1 404 NOT FOUND"@,
    {
        match self {
            Status::Success => "HTTP/1.1 200 OK",
            Status::NotFound => "HTTP/1.1 404 NOT FOUND",
        }
    }
}

/// What the server does with a request: the status, the page to send, and
/// whether to pause first.
#[derive(Debug, Clone, Copy, PartialEq, Eq)]
pub struct Route {
    pub status: Status,
    pub page: &'static str,
    pub pause: bool,
}

/// The route for the first line of a request: the root page, the same page
/// after a pause for `/sleep`, and the not-found page otherwise.
pub fn route(request_line: &str) -> (r: Route)
    ensures
        request_line@ == "GET / HTTP/1.1"@ ==> r.status == Status::Success && r.page@
            == "projects/web_server/hello.html"@ && !r.pause,
        request_line@ == "GET /sleep HTTP/1.1"@ ==> r.status == Status::Success && r.page@
            == "projects/web_server/hello_async.html"@ && r.pause,
        request_line@ != "GET / HTTP/1.1"@ && request_line@ != "GET /sleep HTTP/1.1"@ ==> r.status
            == Status::NotFound && r.page@ == "projects/web_server/not_found.html"@ && !r.pause,
{
    let line = request_line.to_string();
    let root = "GET / HTTP/1.1".to_string();
    let sleep = "GET /sleep HTTP/1.1".to_string();
    proof {
        reveal_strlit("GET / HTTP/1.1");
        reveal_strlit("GET /sleep HTTP/1.1");
        assert("GET / HTTP/1.1"@[5] != "GET /sleep HTTP/1.1"@[5]);
    }
    if line == root {
        Route { status: Status::Success, page: "projects/web_server/hello.html", pause: false }
    } else if line == sleep {
        Route { status: Status::Success, page: "projects/web_server/hello_async.html", pause: true }
    } else {
        Route { status: Status::NotFound, page: "projects/web_server/not_found.html", pause: false }
    }
}

} // verus!
