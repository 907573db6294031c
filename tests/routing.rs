use spot::http_parser::{HttpParser, ParseError};
use spot::request::Request;
use spot::response::Response;
use spot::{default_response, normalize, MiddlewareHandler, RouteHandler, Spot};

#[derive(Clone, Copy, Debug, PartialEq)]
enum Page {
    Hello,
    User,
    Post,
    Tag(u8),
}

impl RouteHandler for Page {
    fn answer(&self, req: Request, res: Response) -> Response {
        self.handle(req, res)
    }

    fn handle(&self, req: Request, mut res: Response) -> Response {
        match self {
            Page::Hello => {
                res.status(200);
                res.body("<h1>Hello World!</h1>");
            }
            Page::User => {
                if req.method == "GET" {
                    if !req.contains_params(vec!["name", "age"]) {
                        res.status(400);
                        res.body("Missing parameter");
                        return res;
                    }
                    res.status(200);
                    let text = format!(
                        "<h1>Hello {}, age {}!</h1>",
                        req.params.get("name").unwrap(),
                        req.params.get("age").unwrap()
                    );
                    res.body(&text);
                }
            }
            Page::Post => {
                res.status(200);
                res.body("{\"message\": \"Hello World!\"}");
            }
            Page::Tag(n) => {
                res.status(200);
                res.header("tag", &n.to_string());
            }
        }
        res
    }
}

#[derive(Clone, Copy, Debug, PartialEq)]
enum Gate {
    NeedsBody,
    Mark(u8),
}

impl MiddlewareHandler for Gate {
    fn outcome(&self, req: Request, res: Response) -> (Request, Response, bool) {
        self.handle(req, res)
    }

    fn handle(&self, req: Request, mut res: Response) -> (Request, Response, bool) {
        match self {
            Gate::NeedsBody => {
                if req.method == "POST" {
                    if !req.body.is_empty() {
                        return (req, res, true);
                    }
                    res.status(400);
                }
                (req, res, false)
            }
            Gate::Mark(n) => {
                let seen = match res.headers.get("trail") {
                    Some(t) => format!("{}{}", t, n),
                    None => n.to_string(),
                };
                res.header("trail", &seen);
                (req, res, true)
            }
        }
    }
}

fn request(line: &str, headers: &[&str], rest: &[u8]) -> Result<Request, ParseError> {
    let lines: Vec<String> = headers.iter().map(|s| s.to_string()).collect();
    HttpParser::parse(line, &lines, rest)
}

fn wire(res: Response) -> String {
    String::from_utf8(res.to_http()).unwrap()
}

#[test]
fn hello_world_route() {
    let mut app: Spot<Page, Gate> = Spot::new(2);
    app.route("/", Page::Hello);
    let res = app.respond(request("GET / HTTP/1.1", &[], b""));
    assert_eq!(res.status, 200);
    assert_eq!(
        wire(res),
        "HTTP/1.1 200 \ncontent-type: text/plain\ncontent-length: 21\n\n<h1>Hello World!</h1>"
    );
}

#[test]
fn user_route_reads_params() {
    let mut app: Spot<Page, Gate> = Spot::new(2);
    app.route("/user/", Page::User);
    let req = request("GET /user?name=cory&age=21 HTTP/1.1", &[], b"").unwrap();
    assert_eq!(req.params.get("name"), Some(&"cory".to_string()));
    assert_eq!(req.params.get("age"), Some(&"21".to_string()));
    let res = app.respond(Ok(req));
    assert_eq!(res.status, 200);
    assert_eq!(res.body, b"<h1>Hello cory, age 21!</h1>".to_vec());
    let res = app.respond(request("GET /user/?name=cory HTTP/1.1", &[], b""));
    assert_eq!(res.status, 400);
}

#[test]
fn missing_route_keeps_default() {
    let mut app: Spot<Page, Gate> = Spot::new(2);
    app.route("/", Page::Hello);
    app.middle("/post", Gate::NeedsBody);
    let res = app.respond(request("GET /missing HTTP/1.1", &[], b""));
    assert_eq!(res.status, 404);
    assert!(res.body.is_empty());
    assert_eq!(wire(res), "HTTP/1.1 404 \ncontent-type: text/plain\n\n");
    let d = default_response();
    assert_eq!(d.status, 404);
    assert_eq!(d.headers.len(), 1);
}

#[test]
fn malformed_request_line_gets_400() {
    let mut app: Spot<Page, Gate> = Spot::new(2);
    app.route("/", Page::Hello);
    app.middle("/", Gate::Mark(1));
    let parsed = request("GARBAGE", &[], b"");
    assert_eq!(parsed.as_ref().err(), Some(&ParseError::MalformedRequestLine));
    let res = app.respond(parsed);
    assert_eq!(res.status, 400);
    assert!(res.body.is_empty());
    assert!(!res.headers.contains_key("trail"));
}

#[test]
fn middleware_stops_empty_post() {
    let mut app: Spot<Page, Gate> = Spot::new(2);
    app.middle("/post/", Gate::NeedsBody);
    app.route("/post/", Page::Post);
    let res = app.respond(request("POST /post HTTP/1.1", &[], b""));
    assert_eq!(res.status, 400);
    assert!(res.body.is_empty());
    let res = app.respond(request("POST /post HTTP/1.1", &["content-length: 2"], b"{}"));
    assert_eq!(res.status, 200);
    assert_eq!(res.body, b"{\"message\": \"Hello World!\"}".to_vec());
}

#[test]
fn middleware_runs_in_prefix_length_order() {
    let mut app: Spot<Page, Gate> = Spot::new(1);
    app.middle("/a/b/", Gate::Mark(3));
    app.middle("/a", Gate::Mark(2));
    app.middle("/", Gate::Mark(1));
    app.middle("/x", Gate::Mark(4));
    app.middle("/a", Gate::Mark(5));
    app.route("/a/b/c", Page::Tag(9));
    let res = app.respond(request("GET /a/b/c/ HTTP/1.1", &[], b""));
    assert_eq!(res.status, 200);
    assert_eq!(res.headers.get("trail"), Some(&"1253".to_string()));
    assert_eq!(res.headers.get("tag"), Some(&"9".to_string()));
    assert_eq!(app.next_middleware("/a/b/c", 0), Some(0));
    assert_eq!(app.next_middleware("/a/b/c", 1), Some(1));
    assert_eq!(app.next_middleware("/a/b/c", 2), Some(3));
    assert_eq!(app.next_middleware("/a/b/c", 4), Some(4));
    assert_eq!(app.next_middleware("/a/b/c", 5), None);
    assert_eq!(app.next_middleware("/", 1), None);
}

#[test]
fn middleware_runs_without_route() {
    let mut app: Spot<Page, Gate> = Spot::new(1);
    app.middle("/", Gate::Mark(7));
    let res = app.respond(request("GET /nothing HTTP/1.1", &[], b""));
    assert_eq!(res.status, 404);
    assert_eq!(res.headers.get("trail"), Some(&"7".to_string()));
}

#[test]
fn second_registration_wins() {
    let mut app: Spot<Page, Gate> = Spot::new(1);
    assert!(!app.route("/t/", Page::Tag(1)));
    assert!(app.route("/t", Page::Tag(2)));
    assert!(!app.route("/u?x=1", Page::Tag(3)));
    assert_eq!(app.route_for("/t"), Some(&Page::Tag(2)));
    assert_eq!(app.route_for("/u"), Some(&Page::Tag(3)));
    assert_eq!(app.route_for("/t/"), None);
    let res = app.respond(request("GET /t/ HTTP/1.1", &[], b""));
    assert_eq!(res.headers.get("tag"), Some(&"2".to_string()));
}

#[test]
fn normalization() {
    assert_eq!(normalize("/user/"), "/user");
    assert_eq!(normalize("/user"), "/user");
    assert_eq!(normalize("/"), "/");
    assert_eq!(normalize(""), "");
    assert_eq!(normalize("/user/?name=a"), "/user");
    assert_eq!(normalize("/a//"), "/a/");
    assert_eq!(normalize("//"), "/");
    for p in ["/user/", "/", "/a/b?c=/", "/x?", "?q", "/a/b/c"] {
        assert_eq!(normalize(&normalize(p)), normalize(p));
    }
}

#[test]
fn empty_path_gets_500() {
    let mut app: Spot<Page, Gate> = Spot::new(1);
    app.route("/", Page::Hello);
    let res = app.respond(request("GET ?a=b HTTP/1.1", &[], b""));
    assert_eq!(res.status, 500);
    assert_eq!(res.body, b"failed to parse http".to_vec());
}

#[test]
fn thread_count_is_kept() {
    let app: Spot<Page, Gate> = Spot::new(4);
    assert_eq!(app.amount_of_threads(), 4);
}
