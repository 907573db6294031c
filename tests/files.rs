use spot::file_parser::FileParser;
use spot::request::Request;
use spot::response::Response;
use spot::static_files::{file_ending, file_path, file_response, route_path};
use spot::table::Table;

fn get(url: &str, method: &str) -> Request {
    Request::new(
        url.to_string(),
        Table::new(),
        Vec::new(),
        "1.1".to_string(),
        method.to_string(),
        Table::new(),
    )
}

#[test]
fn content_types() {
    assert_eq!(FileParser::get_type("html"), "text/html");
    assert_eq!(FileParser::get_type("css"), "text/css");
    assert_eq!(FileParser::get_type("jpg"), "image/jpeg");
    assert_eq!(FileParser::get_type("jpeg"), "image/jpeg");
    assert_eq!(FileParser::get_type("webm"), "video/webm");
    assert_eq!(FileParser::get_type("exe"), "text/plain");
    assert_eq!(FileParser::get_type(""), "text/plain");
    assert_eq!(FileParser::get_type("HTML"), "text/plain");
}

#[test]
fn endings_and_paths() {
    assert_eq!(file_ending("/index.html"), "html");
    assert_eq!(file_ending("/a.b/c.tar.gz"), "gz");
    assert_eq!(file_ending("/README"), "/README");
    assert_eq!(route_path("css\\site.css"), "/css/site.css");
    assert_eq!(route_path("index.html"), "/index.html");
    assert_eq!(file_path("/index.html"), "index.html");
    assert_eq!(file_path(""), "");
}

#[test]
fn served_file_response() {
    let res = Response::new(404, Vec::new(), Table::new());
    let res = file_response(&get("/site.css", "GET"), res, Some(b"body{}".to_vec()));
    assert_eq!(res.status, 200);
    assert_eq!(res.body, b"body{}".to_vec());
    assert_eq!(res.headers.get("content-type"), Some(&"text/css".to_string()));
    assert_eq!(res.headers.get("content-length"), Some(&"6".to_string()));
    let res = Response::new(404, Vec::new(), Table::new());
    let res = file_response(&get("/site.css", "GET"), res, None);
    assert_eq!(res.status, 500);
    let res = Response::new(404, Vec::new(), Table::new());
    let res = file_response(&get("/site.css", "POST"), res, Some(vec![1]));
    assert_eq!(res.status, 404);
    assert!(res.body.is_empty());
}
