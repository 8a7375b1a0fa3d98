use jerry::http::{append, push_decimal, route, Page};

fn request_for(path: &str) -> Vec<u8> {
    let text = format!(
        "GET {} HTTP/1.1\r\naccept: */*\r\nhost: 127.0.0.1:7878\r\n\r\n",
        path
    );
    let mut buffer = vec![0u8; 1024];
    buffer[..text.len()].copy_from_slice(text.as_bytes());
    buffer
}

fn status_code(response: &[u8]) -> u16 {
    let text = String::from_utf8(response.to_vec()).unwrap();
    let line = text.lines().next().unwrap();
    line.split(' ').nth(1).unwrap().parse().unwrap()
}

fn expected(status_line: &str, contents: &str) -> Vec<u8> {
    format!(
        "{}\r\nContent-Length: {}\r\n\r\n{}",
        status_line,
        contents.len(),
        contents
    )
    .into_bytes()
}

#[test]
fn request_200() {
    let request = request_for("/");
    let page = route(&request);
    let response = page.response("<h1>Hello!</h1>".as_bytes());
    assert_eq!(200, status_code(&response));
}

#[test]
fn request_404() {
    let request = request_for("/incorrect_url");
    let page = route(&request);
    let response = page.response("<h1>Oops!</h1>".as_bytes());
    assert_eq!(404, status_code(&response));
}

#[test]
fn only_the_exact_request_line_gets_the_root_page() {
    assert_eq!(route(b"GET / HTTP/1.1\r\n"), Page::Root);
    assert_eq!(route(b"GET / HTTP/1.1\r\nHost: x\r\n\r\n"), Page::Root);
    assert_eq!(route(b"GET / HTTP/1.1\r"), Page::NotFound);
    assert_eq!(route(b"GET / HTTP/1.1\n\r"), Page::NotFound);
    assert_eq!(route(b"GET / HTTP/1.0\r\n"), Page::NotFound);
    assert_eq!(route(b"get / HTTP/1.1\r\n"), Page::NotFound);
    assert_eq!(route(b"POST / HTTP/1.1\r\n"), Page::NotFound);
    assert_eq!(route(b" GET / HTTP/1.1\r\n"), Page::NotFound);
    assert_eq!(route(b"GET /index.html HTTP/1.1\r\n"), Page::NotFound);
    assert_eq!(route(b""), Page::NotFound);
    assert_eq!(route(&[0u8; 1024]), Page::NotFound);
}

#[test]
fn each_page_has_its_status_line_and_file() {
    assert_eq!(Page::Root.status_line(), b"HTTP/1.1 200 OK".to_vec());
    assert_eq!(Page::NotFound.status_line(), b"HTTP/1.1 404 NOT FOUND".to_vec());
    assert_eq!(Page::Root.filename(), "templates/200.html");
    assert_eq!(Page::NotFound.filename(), "templates/404.html");
}

#[test]
fn the_response_is_head_length_and_contents() {
    let contents = "<!DOCTYPE html>\n<html><body><p>Hi from the pool</p></body></html>\n";
    assert_eq!(
        Page::Root.response(contents.as_bytes()),
        expected("HTTP/1.1 200 OK", contents)
    );
    assert_eq!(
        Page::NotFound.response(contents.as_bytes()),
        expected("HTTP/1.1 404 NOT FOUND", contents)
    );
    assert_eq!(
        Page::Root.response(b""),
        b"HTTP/1.1 200 OK\r\nContent-Length: 0\r\n\r\n".to_vec()
    );
    let long = "x".repeat(12345);
    assert_eq!(
        Page::NotFound.response(long.as_bytes()),
        expected("HTTP/1.1 404 NOT FOUND", &long)
    );
    // The length counts bytes, not characters.
    let accented = "caf\u{e9}";
    assert_eq!(
        Page::Root.response(accented.as_bytes()),
        b"HTTP/1.1 200 OK\r\nContent-Length: 5\r\n\r\ncaf\xc3\xa9".to_vec()
    );
}

#[test]
fn numbers_are_written_in_decimal() {
    for n in [0usize, 7, 9, 10, 11, 99, 100, 101, 4096, 12345, 1_000_000, usize::MAX] {
        let mut out = b"n=".to_vec();
        push_decimal(&mut out, n);
        assert_eq!(out, format!("n={}", n).into_bytes());
    }
}

#[test]
fn appending_keeps_what_was_there() {
    let mut out = b"abc".to_vec();
    append(&mut out, b"");
    assert_eq!(out, b"abc".to_vec());
    append(&mut out, b"def");
    assert_eq!(out, b"abcdef".to_vec());
}
