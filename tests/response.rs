use spot::response::Response;
use spot::table::Table;

#[test]
fn serializes_status_headers_and_body() {
    let mut res = Response::new(404, Vec::new(), Table::new());
    res.status(200);
    res.body("<h1>Hello World!</h1>");
    let wire = String::from_utf8(res.to_http()).unwrap();
    assert_eq!(
        wire,
        "HTTP/1.1 200 \ncontent-length: 21\ncontent-type: text/plain\n\n<h1>Hello World!</h1>"
    );
}

#[test]
fn body_sets_content_length() {
    let mut res = Response::new(404, Vec::new(), Table::new());
    res.body("héllo");
    assert_eq!(res.body, "héllo".as_bytes().to_vec());
    assert_eq!(res.headers.get("content-length"), Some(&"6".to_string()));
    assert_eq!(res.headers.get("content-type"), Some(&"text/plain".to_string()));
    res.body("");
    assert_eq!(res.headers.get("content-length"), Some(&"0".to_string()));
    assert_eq!(res.headers.len(), 2);
}

#[test]
fn body_bytes_sets_only_content_length() {
    let mut res = Response::new(200, Vec::new(), Table::new());
    res.body_bytes(vec![0u8; 1234]);
    assert_eq!(res.body.len(), 1234);
    assert_eq!(res.headers.get("content-length"), Some(&"1234".to_string()));
    assert!(!res.headers.contains_key("content-type"));
}

#[test]
fn header_replaces_earlier_value() {
    let mut res = Response::new(200, Vec::new(), Table::new());
    res.header("Location", "/a");
    res.header("x", "1");
    res.header("Location", "/index.html");
    assert_eq!(res.headers.len(), 2);
    assert_eq!(res.headers.get("Location"), Some(&"/index.html".to_string()));
    let wire = String::from_utf8(res.to_http()).unwrap();
    assert_eq!(wire, "HTTP/1.1 200 \nLocation: /index.html\nx: 1\n\n");
}

#[test]
fn empty_response_serializes() {
    let res = Response::new(5, Vec::new(), Table::new());
    assert_eq!(res.to_http(), b"HTTP/1.1 5 \n\n".to_vec());
}

#[test]
fn table_keeps_insertion_order() {
    let mut t: Table<u32> = Table::new();
    t.insert("b".to_string(), 1);
    t.insert("a".to_string(), 2);
    t.insert("b".to_string(), 3);
    assert_eq!(t.len(), 2);
    assert_eq!(t.key_at(0), "b");
    assert_eq!(*t.value_at(0), 3);
    assert_eq!(t.key_at(1), "a");
    assert_eq!(t.index_of("a"), Some(1));
    assert_eq!(t.index_of("c"), None);
}
