use algorithms_and_data_structures::web::{route, Status};

#[test]
fn status_lines() {
    assert_eq!(Status::Success.get_status_line(), "HTTP/1.1 200 OK");
    assert_eq!(Status::NotFound.get_status_line(), "HTTP/1.1 404 NOT FOUND");
}

#[test]
fn requests_are_routed() {
    let r = route("GET / HTTP/1.1");
    assert_eq!(r.status, Status::Success);
    assert_eq!(r.page, "projects/web_server/hello.html");
    assert!(!r.pause);
    let r = route("GET /sleep HTTP/1.1");
    assert_eq!(r.page, "projects/web_server/hello_async.html");
    assert!(r.pause);
    let r = route("GET /other HTTP/1.1");
    assert_eq!(r.status, Status::NotFound);
    assert_eq!(r.page, "projects/web_server/not_found.html");
}
