use server::{dispatch, Action, Method, Request, Response, Router};

type Handler = fn(Request) -> Response;

fn h1(_: Request) -> Response {
    Response::new(200, "one".to_string())
}

fn h2(_: Request) -> Response {
    Response::new(200, "two".to_string())
}

fn hello(_: Request) -> Response {
    Response::new(200, "Hi".to_string())
}

fn echo(req: Request) -> Response {
    Response::new(200, req.endpoint)
}

#[test]
fn exact_route_wins_then_wildcard_then_none() {
    let mut routes: Router<Handler> = Router::new();
    routes.register(Method::Get, "/".to_string(), h1);
    routes.register(Method::Get, "*".to_string(), h2);
    let found = routes.resolve(Method::Get, &"/".to_string()).unwrap();
    assert_eq!(*found as usize, h1 as Handler as usize);
    let found = routes.resolve(Method::Get, &"/other".to_string()).unwrap();
    assert_eq!(*found as usize, h2 as Handler as usize);
    assert!(routes.resolve(Method::Post, &"/".to_string()).is_none());
}

#[test]
fn registering_again_replaces_the_handler() {
    let mut routes: Router<u32> = Router::new();
    routes.register(Method::Post, "/a".to_string(), 1);
    routes.register(Method::Post, "/a".to_string(), 2);
    assert_eq!(routes.resolve(Method::Post, &"/a".to_string()), Some(&2));
    assert_eq!(routes.resolve(Method::Get, &"/a".to_string()), None);
}

#[test]
fn unmatched_request_gets_not_found() {
    let mut routes: Router<Handler> = Router::new();
    routes.register(Method::Get, "/".to_string(), h1);
    match dispatch(&routes, b"POST / HTTP/1.1\r\n\r\n") {
        Action::Reply(resp) => {
            assert_eq!(resp.status(), 404);
            assert_eq!(resp.body(), "Not Found");
        },
        Action::Invoke(_, _) => panic!("no route should match"),
    }
}

#[test]
fn malformed_request_gets_bad_request() {
    let routes: Router<Handler> = Router::new();
    match dispatch(&routes, b"BREW /pot HTTP/1.1\r\n\r\n") {
        Action::Reply(resp) => assert_eq!(resp.status(), 400),
        Action::Invoke(_, _) => panic!("the request cannot be read"),
    }
}

#[test]
fn end_to_end_hello() {
    let mut routes: Router<Handler> = Router::new();
    routes.register(Method::Get, "/hello".to_string(), hello);
    routes.register(Method::Get, "*".to_string(), echo);
    let input = b"GET /hello HTTP/1.1\r\n\r\n";
    assert_eq!(server::wanted_len(input), Some(input.len()));
    let text = match dispatch(&routes, input) {
        Action::Invoke(h, req) => h(req).to_text(),
        Action::Reply(_) => panic!("the route should match"),
    };
    assert!(text.starts_with("HTTP/1.1 200\n"));
    assert!(text.ends_with("\n\nHi"));
    let text = match dispatch(&routes, b"GET /else HTTP/1.1\r\n\r\n") {
        Action::Invoke(h, req) => h(req).to_text(),
        Action::Reply(_) => panic!("the wildcard should match"),
    };
    assert_eq!(text, "HTTP/1.1 200\n\n/else");
}
