use http_client::error::HttpError;
use http_client::method::HttpMethod;
use http_client::reader::line_end_from;
use http_client::reader::parse_response;
use http_client::reader::ResponseReader;
use http_client::reader::Want;

#[test]
fn a_reader_asks_for_lines_and_bytes_in_turn() {
    let mut reader = ResponseReader::new(HttpMethod::Get);
    assert_eq!(reader.want(), Want::Line);
    assert!(!reader.is_done());
    reader.feed(b"HTTP/1.1 200 OK\r\n".to_vec());
    assert_eq!(reader.want(), Want::Line);
    reader.feed(b"Content-Length: 5\r\n".to_vec());
    assert_eq!(reader.want(), Want::Line);
    reader.feed(b"\r\n".to_vec());
    assert_eq!(reader.want(), Want::Bytes(5));
    reader.feed(b"hello".to_vec());
    assert_eq!(reader.want(), Want::Nothing);
    assert!(reader.is_done());
    let response = reader.finish().unwrap().unwrap();
    assert_eq!(response.status, 200);
    assert_eq!(response.body.unwrap().raw(), b"hello".to_vec());
    assert_eq!(response.header.to_string(), "content-length: 5");
}

#[test]
fn a_reader_walks_through_chunks() {
    let mut reader = ResponseReader::new(HttpMethod::Post);
    reader.feed(b"HTTP/1.1 201 Created\r\n".to_vec());
    reader.feed(b"Transfer-Encoding: chunked\r\n".to_vec());
    reader.feed(b"\r\n".to_vec());
    assert_eq!(reader.want(), Want::Line);
    reader.feed(b"5\r\n".to_vec());
    assert_eq!(reader.want(), Want::Bytes(5));
    reader.feed(b"hello".to_vec());
    assert_eq!(reader.want(), Want::Line);
    reader.feed(b"\r\n".to_vec());
    assert_eq!(reader.want(), Want::Line);
    reader.feed(b"3\r\n".to_vec());
    assert_eq!(reader.want(), Want::Bytes(3));
    reader.feed(b"abc".to_vec());
    reader.feed(b"\r\n".to_vec());
    reader.feed(b"0\r\n".to_vec());
    assert_eq!(reader.want(), Want::Line);
    reader.feed(b"\r\n".to_vec());
    assert_eq!(reader.want(), Want::Nothing);
    let response = reader.finish().unwrap().unwrap();
    assert_eq!(response.status, 201);
    assert_eq!(response.body.unwrap().raw(), b"helloabc".to_vec());
    assert_eq!(response.header.to_string(), "content-length: 8");
}

#[test]
fn a_reader_is_done_at_the_first_failure() {
    let mut reader = ResponseReader::new(HttpMethod::Get);
    reader.feed(b"HTTP/1.1 200 OK\r\n".to_vec());
    reader.feed(b"oops\r\n".to_vec());
    assert_eq!(reader.want(), Want::Nothing);
    reader.feed(b"a: b\r\n".to_vec());
    assert_eq!(reader.want(), Want::Nothing);
    assert_eq!(reader.finish().unwrap().err(), Some(HttpError::MalformedHeaderLine));
}

#[test]
fn a_reader_that_is_not_done_has_no_result() {
    let mut reader = ResponseReader::new(HttpMethod::Get);
    assert!(reader.finish().is_none());
    reader = ResponseReader::new(HttpMethod::Get);
    reader.feed(b"HTTP/1.1 200 OK\r\n".to_vec());
    assert!(reader.finish().is_none());
}

#[test]
fn a_short_run_of_bytes_is_a_truncated_stream() {
    let mut reader = ResponseReader::new(HttpMethod::Get);
    reader.feed(b"HTTP/1.1 200 OK\r\n".to_vec());
    reader.feed(b"content-length: 3\r\n".to_vec());
    reader.feed(b"\r\n".to_vec());
    reader.feed(b"ab".to_vec());
    assert_eq!(reader.finish().unwrap().err(), Some(HttpError::TruncatedStream));
}

#[test]
fn a_body_of_length_zero_is_asked_for_and_held_as_none() {
    let mut reader = ResponseReader::new(HttpMethod::Delete);
    reader.feed(b"HTTP/1.1 200 OK\r\n".to_vec());
    reader.feed(b"content-length: 0\r\n".to_vec());
    reader.feed(b"\r\n".to_vec());
    assert_eq!(reader.want(), Want::Bytes(0));
    reader.feed(Vec::new());
    assert!(reader.finish().unwrap().unwrap().body.is_none());
}

#[test]
fn a_reader_fed_nothing_comes_to_an_end() {
    let status = "HTTP/1.1 200 OK\r\n";
    let chunked = "transfer-encoding: chunked\r\n";
    let blank = "\r\n";
    let cases: Vec<Vec<&str>> = vec![
        vec![],
        vec![status],
        vec![status, chunked, blank],
        vec![status, chunked, blank, "1\r\n"],
        vec![status, chunked, blank, "1\r\n", "x"],
        vec![status, chunked, blank, "0\r\n"],
        vec![status, "content-length: 1\r\n", blank],
    ];
    for lines in cases {
        let mut reader = ResponseReader::new(HttpMethod::Get);
        for line in lines {
            reader.feed(line.as_bytes().to_vec());
        }
        let mut steps = 0;
        while !reader.is_done() {
            reader.feed(Vec::new());
            steps += 1;
            assert!(steps <= 3);
        }
    }
}

#[test]
fn line_ends_are_found() {
    let input = b"ab\ncd\n\nef";
    assert_eq!(line_end_from(input, 0), 3);
    assert_eq!(line_end_from(input, 1), 3);
    assert_eq!(line_end_from(input, 2), 3);
    assert_eq!(line_end_from(input, 3), 6);
    assert_eq!(line_end_from(input, 6), 7);
    assert_eq!(line_end_from(input, 7), 9);
    assert_eq!(line_end_from(input, 9), 9);
    assert_eq!(line_end_from(b"", 0), 0);
}

#[test]
fn parsing_counts_the_bytes_of_the_response() {
    let input = b"HTTP/1.1 200 OK\r\ncontent-length: 2\r\n\r\nhi";
    let (response, taken) = parse_response(input, HttpMethod::Get).unwrap();
    assert_eq!(taken, input.len());
    assert_eq!(response.status, 200);
    let (_, taken) = parse_response(b"HTTP/1.1 200 OK\r\n\r\nmore", HttpMethod::Head).unwrap();
    assert_eq!(taken, 19);
}
