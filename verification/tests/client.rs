use http_client::client::HttpClient;
use http_client::client::ReadWriter;
use http_client::client::Record;
use http_client::error::HttpError;
use http_client::header::HttpHeader;
use http_client::memory::MemoryStream;
use http_client::reader::parse_response;
use http_client::method::HttpMethod;
use http_client::request::Request;
use http_client::response::Response;

fn exchange(req: &Request, incoming: &[u8]) -> (Result<Response, HttpError>, MemoryStream) {
    let mut client = HttpClient::new(MemoryStream::new(incoming.to_vec()));
    let result = client.execute_request(req);
    (result, client.into_inner())
}

fn animal() -> serde_json::Value {
    let mut animal = serde_json::Map::new();
    animal.insert("name".into(), serde_json::Value::from("gorilla"));
    animal.insert("age".into(), serde_json::Value::from(10));
    serde_json::Value::Object(animal)
}

#[test]
fn client_request_get() {
    let want_body = r#"{"name": "gorilla", "age": 5}"#;
    let incoming = format!(
        "HTTP/1.1 200 OK\r\nContent-Type: application/json\r\nContent-Length: 29\r\n\r\n{}",
        want_body
    );

    let req = Request::get("/hello");
    let (resp, conn) = exchange(&req, incoming.as_bytes());
    let resp = resp.unwrap();
    let body = resp.body.unwrap();

    assert_eq!(body.text().unwrap(), want_body);
    assert_eq!(resp.status, 200);
    assert_eq!(resp.header.get("content-type").unwrap(), "application/json");
    assert_eq!(resp.header.get("content-length").unwrap(), "29");
    assert_eq!(
        conn.written(),
        b"GET /hello HTTP/1.1\r\nHost: localhost\r\n\r\n\r\n".to_vec()
    );
    assert_eq!(conn.remaining(), 0);
}

#[test]
fn request_post() {
    let animal = animal();
    let want_body = animal.to_string();
    let length = want_body.len();
    let header: HttpHeader = HttpHeader::from_pairs(&[
        ("Content-type", "application/json"),
        ("Content-length", length.to_string().as_str()),
    ]);

    let mut req = Request::post("/hello", animal);
    let req = req.header(header);
    let (resp, conn) = exchange(
        req,
        b"HTTP/1.1 200 OK\r\ncontent-type: application/json\r\ncontent-length: 4\r\n\r\ntrue",
    );
    let resp = resp.unwrap();
    let body = resp.body.unwrap();
    assert_eq!(body.text().unwrap(), "true");
    assert_eq!(resp.header.get("content-length").unwrap(), "4");
    assert_eq!(
        String::from_utf8(conn.written()).unwrap(),
        format!(
            "POST /hello HTTP/1.1\r\nHost: localhost\r\ncontent-length: {}\r\ncontent-type: application/json\r\n\r\n{}\r\n",
            length, want_body
        )
    );
}

#[test]
fn request_put() {
    let animal = animal();
    let want_body = animal.to_string();
    let length = want_body.len();
    let header: HttpHeader = HttpHeader::from_pairs(&[
        ("Content-type", "application/json"),
        ("Content-length", length.to_string().as_str()),
    ]);

    let mut req = Request::put("/hello", animal);
    let req = req.header(header);
    let (resp, conn) = exchange(
        req,
        b"HTTP/1.1 200 OK\r\ncontent-type: application/json\r\ncontent-length: 4\r\n\r\ntrue",
    );
    let resp = resp.unwrap();
    let body = resp.body.unwrap();
    assert_eq!(body.text().unwrap(), "true");
    assert_eq!(resp.header.get("content-length").unwrap(), "4");
    assert!(conn.written().starts_with(b"PUT /hello HTTP/1.1\r\n"));
}

#[test]
fn request_delete() {
    let req = Request::delete("/hello");
    let (resp, conn) = exchange(&req, b"HTTP/1.1 200 OK\r\ncontent-length: 0\r\n\r\n");
    let resp = resp.unwrap();

    assert_eq!(resp.status, 200);
    assert!(resp.body.is_none());
    assert_eq!(
        conn.written(),
        b"DELETE /hello HTTP/1.1\r\nHost: localhost\r\n\r\n\r\n".to_vec()
    );
}

#[test]
fn delete_without_framing_is_rejected() {
    let req = Request::delete("/hello");
    let (resp, _) = exchange(&req, b"HTTP/1.1 200 OK\r\n\r\n");
    assert_eq!(resp.err(), Some(HttpError::MissingFraming));
}

#[test]
fn request_patch() {
    let animal = animal();
    let want_body = animal.to_string();
    let length = want_body.len();
    let header: HttpHeader = HttpHeader::from_pairs(&[
        ("Content-type", "application/json"),
        ("Content-length", length.to_string().as_str()),
    ]);

    let mut req = Request::patch("/hello", animal);
    let req = req.header(header);
    let (resp, conn) = exchange(
        req,
        b"HTTP/1.1 200 OK\r\ncontent-type: application/json\r\ncontent-length: 4\r\n\r\ntrue",
    );
    let body = resp.unwrap().body.unwrap();
    assert_eq!(body.text().unwrap(), "true");
    assert!(conn.written().starts_with(b"PATCH /hello HTTP/1.1\r\n"));
}

#[test]
fn request_head() {
    let req = Request::head("/hello");
    let (resp, _) = exchange(&req, b"HTTP/1.1 200 OK\r\n\r\n");
    let resp = resp.unwrap();

    assert_eq!(resp.status, 200);
    assert!(resp.body.is_none());
}

#[test]
fn request_options() {
    let req = Request::options("/hello");
    let (resp, _) = exchange(
        &req,
        b"HTTP/1.1 200 OK\r\nAccess-Control-Allow-Methods: POST, PUT\r\n\r\n",
    );
    let resp = resp.unwrap();

    assert_eq!(resp.status, 200);
    assert_eq!(
        resp.header.get("access-control-allow-methods").unwrap(),
        "POST, PUT"
    );
    assert!(resp.body.is_none());
}

#[test]
fn no_content_status_never_has_a_body() {
    for status in ["204", "304"] {
        for framing in [
            "content-length: 5\r\n",
            "transfer-encoding: chunked\r\n",
            "content-length: 5\r\ntransfer-encoding: chunked\r\n",
            "content-length: nonsense\r\n",
            "",
        ] {
            let incoming = format!("HTTP/1.1 {} X\r\n{}\r\nhello", status, framing);
            let (resp, taken) = parse_response(incoming.as_bytes(), HttpMethod::Get).unwrap();
            assert!(resp.body.is_none());
            assert_eq!(resp.status.to_string(), status);
            assert_eq!(taken, incoming.len() - 5);
        }
    }
}

#[test]
fn head_and_options_never_read_a_body() {
    for method in [HttpMethod::Head, HttpMethod::Options] {
        let incoming = b"HTTP/1.1 200 OK\r\ncontent-length: 5\r\n\r\nhello";
        let (resp, taken) = parse_response(incoming, method).unwrap();
        assert!(resp.body.is_none());
        assert_eq!(resp.header.get("content-length").unwrap(), "5");
        assert_eq!(taken, incoming.len() - 5);

        let chunked = b"HTTP/1.1 200 OK\r\ntransfer-encoding: chunked\r\n\r\n5\r\nhello\r\n0\r\n\r\n";
        let (resp, taken) = parse_response(chunked, method).unwrap();
        assert!(resp.body.is_none());
        assert_eq!(resp.header.get("transfer-encoding").unwrap(), "chunked");
        assert_eq!(taken, 47);
    }
}

#[test]
fn fixed_length_body_is_exactly_the_announced_bytes() {
    let incoming = b"HTTP/1.1 200 OK\r\ncontent-length: 5\r\n\r\nhello and more";
    let (resp, taken) = parse_response(incoming, HttpMethod::Get).unwrap();
    assert_eq!(resp.body.unwrap().raw(), b"hello".to_vec());
    assert_eq!(taken, incoming.len() - 9);

    let binary = b"HTTP/1.1 200 OK\r\ncontent-length: 4\r\n\r\n\r\n\x00\xff";
    let (resp, _) = parse_response(binary, HttpMethod::Post).unwrap();
    assert_eq!(resp.body.unwrap().raw(), vec![13, 10, 0, 255]);
}

#[test]
fn fixed_length_body_cut_short_is_truncated() {
    let incoming = b"HTTP/1.1 200 OK\r\ncontent-length: 6\r\n\r\nhello";
    assert_eq!(
        parse_response(incoming, HttpMethod::Get).err(),
        Some(HttpError::TruncatedStream)
    );
    let none = b"HTTP/1.1 200 OK\r\ncontent-length: 1\r\n\r\n";
    assert_eq!(
        parse_response(none, HttpMethod::Get).err(),
        Some(HttpError::TruncatedStream)
    );
}

#[test]
fn empty_body_is_held_as_none() {
    let incoming = b"HTTP/1.1 200 OK\r\ncontent-length: 0\r\n\r\nrest";
    let (resp, taken) = parse_response(incoming, HttpMethod::Get).unwrap();
    assert!(resp.body.is_none());
    assert_eq!(taken, incoming.len() - 4);

    let chunked = b"HTTP/1.1 200 OK\r\ntransfer-encoding: chunked\r\n\r\n0\r\n\r\n";
    let (resp, taken) = parse_response(chunked, HttpMethod::Get).unwrap();
    assert!(resp.body.is_none());
    assert_eq!(resp.header.get("content-length").unwrap(), "0");
    assert_eq!(taken, chunked.len());
}

#[test]
fn chunked_body_is_the_chunks_joined() {
    let incoming =
        b"HTTP/1.1 200 OK\r\nTransfer-Encoding: chunked\r\n\r\n5\r\nhello\r\n3\r\nabc\r\n0\r\n\r\nnext";
    let (resp, taken) = parse_response(incoming, HttpMethod::Get).unwrap();
    assert_eq!(resp.status, 200);
    assert_eq!(resp.body.unwrap().raw(), b"helloabc".to_vec());
    assert_eq!(resp.header.get("content-length").unwrap(), "8");
    assert!(resp.header.get("transfer-encoding").is_none());
    assert_eq!(resp.header.len(), 1);
    assert_eq!(taken, incoming.len() - 4);
}

#[test]
fn chunk_sizes_are_read_in_base_16() {
    let incoming = b"HTTP/1.1 200 OK\r\ntransfer-encoding: chunked\r\n\r\nA\r\n0123456789\r\n+1\r\nx\r\n 0b \r\nabcdefghijk\r\n-0\r\n";
    let (resp, taken) = parse_response(incoming, HttpMethod::Get).unwrap();
    assert_eq!(resp.body.unwrap().raw(), b"0123456789xabcdefghijk".to_vec());
    assert_eq!(resp.header.get("content-length").unwrap(), "22");
    assert_eq!(taken, incoming.len());
}

#[test]
fn chunked_body_failures() {
    let head = "HTTP/1.1 200 OK\r\ntransfer-encoding: chunked\r\n\r\n";
    let cases: [(&[u8], HttpError); 9] = [
        (b"", HttpError::TruncatedStream),
        (b"5\r\nhello\r\n", HttpError::TruncatedStream),
        (b"5\r\nhell", HttpError::TruncatedStream),
        (b"xyz\r\n", HttpError::InvalidChunkSize),
        (b"\r\n", HttpError::InvalidChunkSize),
        (b"-5\r\nhello\r\n0\r\n\r\n", HttpError::InvalidChunkSize),
        (b"5;x=y\r\nhello\r\n0\r\n\r\n", HttpError::InvalidChunkSize),
        (b"8000000000000000\r\n", HttpError::InvalidChunkSize),
        (b"\xff\r\n", HttpError::InvalidChunkSize),
    ];
    for (tail, want) in cases {
        let mut incoming = head.as_bytes().to_vec();
        incoming.extend_from_slice(tail);
        assert_eq!(parse_response(&incoming, HttpMethod::Get).err(), Some(want));
    }
}

#[test]
fn chunked_body_may_end_without_its_last_line() {
    let incoming = b"HTTP/1.1 200 OK\r\ntransfer-encoding: chunked\r\n\r\n2\r\nhi\r\n0\r\n";
    let (resp, taken) = parse_response(incoming, HttpMethod::Get).unwrap();
    assert_eq!(resp.body.unwrap().raw(), b"hi".to_vec());
    assert_eq!(taken, incoming.len());
}

#[test]
fn only_the_exact_word_chunked_selects_chunks() {
    let incoming = b"HTTP/1.1 200 OK\r\ntransfer-encoding: Chunked\r\ncontent-length: 2\r\n\r\nhi";
    let (resp, _) = parse_response(incoming, HttpMethod::Get).unwrap();
    assert_eq!(resp.body.unwrap().raw(), b"hi".to_vec());
    assert_eq!(resp.header.get("transfer-encoding").unwrap(), "Chunked");

    let no_length = b"HTTP/1.1 200 OK\r\ntransfer-encoding: gzip\r\n\r\nhi";
    assert_eq!(
        parse_response(no_length, HttpMethod::Get).err(),
        Some(HttpError::InvalidContentLength)
    );
}

#[test]
fn chunked_wins_over_a_length() {
    let incoming =
        b"HTTP/1.1 200 OK\r\ncontent-length: 99\r\ntransfer-encoding: chunked\r\n\r\n1\r\nz\r\n0\r\n\r\n";
    let (resp, _) = parse_response(incoming, HttpMethod::Get).unwrap();
    assert_eq!(resp.body.unwrap().raw(), b"z".to_vec());
    assert_eq!(resp.header.get("content-length").unwrap(), "1");
}

#[test]
fn missing_framing_is_rejected() {
    for method in [
        HttpMethod::Get,
        HttpMethod::Post,
        HttpMethod::Put,
        HttpMethod::Delete,
        HttpMethod::Patch,
    ] {
        let incoming = b"HTTP/1.1 200 OK\r\ncontent-type: text/plain\r\n\r\nhello";
        assert_eq!(
            parse_response(incoming, method).err(),
            Some(HttpError::MissingFraming)
        );
    }
}

#[test]
fn malformed_status_lines() {
    let cases: [&[u8]; 9] = [
        b"",
        b"\r\n",
        b"HTTP/1.1\r\n\r\n",
        b"HTTP/1.1 abc OK\r\n\r\n",
        b"HTTP/1.1 -200 OK\r\n\r\n",
        b"HTTP/1.1 4294967296 OK\r\n\r\n",
        b"HTTP/1.1 20x OK\r\n\r\n",
        b"HTTP/1.1 + OK\r\n\r\n",
        b"HTTP/1.1 200 \xff\r\n\r\n",
    ];
    for incoming in cases {
        assert_eq!(
            parse_response(incoming, HttpMethod::Head).err(),
            Some(HttpError::MalformedStatusLine)
        );
    }
}

#[test]
fn status_line_tokens_are_split_on_any_white_space() {
    let cases: [(&[u8], u32); 6] = [
        (b"HTTP/1.1 200 OK\r\n\r\n", 200),
        (b"  HTTP/1.1 \t 404\r\n\r\n", 404),
        (b"x +7\n\r\n", 7),
        (b"x 4294967295 y z\r\n\r\n", 4294967295),
        (b"x\x0b000\x0c\r\n\r\n", 0),
        ("x\u{a0}12\u{3000}y\r\n\r\n".as_bytes(), 12),
    ];
    for (incoming, want) in cases {
        let (resp, taken) = parse_response(incoming, HttpMethod::Head).unwrap();
        assert_eq!(resp.status, want);
        assert_eq!(taken, incoming.len());
    }
}

#[test]
fn malformed_header_lines() {
    let cases: [&[u8]; 6] = [
        b"HTTP/1.1 200 OK\r\nno separator here\r\n\r\n",
        b"HTTP/1.1 200 OK\r\nkey:value\r\n\r\n",
        b"HTTP/1.1 200 OK\r\nkey: \r\n\r\n",
        b"HTTP/1.1 200 OK\r\n\n",
        b"HTTP/1.1 200 OK\r\nkey: \xff\r\n\r\n",
        b"HTTP/1.1 200 OK\r\n \r\n\r\n",
    ];
    for incoming in cases {
        assert_eq!(
            parse_response(incoming, HttpMethod::Head).err(),
            Some(HttpError::MalformedHeaderLine)
        );
    }
}

#[test]
fn headers_cut_short_are_truncated() {
    let cases: [&[u8]; 3] = [
        b"HTTP/1.1 200 OK\r\n",
        b"HTTP/1.1 200 OK\r\na: b\r\n",
        b"HTTP/1.1 200 OK",
    ];
    for incoming in cases {
        assert_eq!(
            parse_response(incoming, HttpMethod::Head).err(),
            Some(HttpError::TruncatedStream)
        );
    }
    assert_eq!(
        parse_response(b"HTTP/1.1 200 OK\r\na: b\r\nc: d", HttpMethod::Head).err(),
        Some(HttpError::TruncatedStream)
    );
    assert_eq!(
        parse_response(b"HTTP/1.1 200 OK\r\na: b\r\nc", HttpMethod::Head).err(),
        Some(HttpError::MalformedHeaderLine)
    );
}

#[test]
fn header_lines_are_trimmed_split_once_and_lower_cased() {
    let incoming =
        b"HTTP/1.1 200 OK\r\n  Date: Mon: 12: 30  \r\nX-UPPER: Value\r\nx-upper: later\r\nEmpty: : x\r\n: v\r\n\r\n";
    let (resp, _) = parse_response(incoming, HttpMethod::Head).unwrap();
    assert_eq!(resp.header.get("date").unwrap(), "Mon: 12: 30");
    assert_eq!(resp.header.get("x-upper").unwrap(), "later");
    assert_eq!(resp.header.get("X-Upper").unwrap(), "later");
    assert_eq!(resp.header.lookup("X-Upper"), None);
    assert_eq!(resp.header.get("empty").unwrap(), ": x");
    assert_eq!(resp.header.get("").unwrap(), "v");
    assert_eq!(resp.header.len(), 4);
    assert_eq!(
        resp.header.to_string(),
        ": v\r\ndate: Mon: 12: 30\r\nempty: : x\r\nx-upper: later"
    );
}

#[test]
fn invalid_content_lengths() {
    for value in ["abc", "-1", " 5", "", "1e3", "0x10", "99999999999999999999999"] {
        let incoming = format!("HTTP/1.1 200 OK\r\nx: y\r\ncontent-length: {}\r\n\r\nhello", value);
        let want = if value.is_empty() {
            HttpError::MalformedHeaderLine
        } else {
            HttpError::InvalidContentLength
        };
        assert_eq!(
            parse_response(incoming.as_bytes(), HttpMethod::Get).err(),
            Some(want),
            "{:?}",
            value
        );
    }
    for value in ["+005", "5 ", "5\t"] {
        let incoming = format!("HTTP/1.1 200 OK\r\ncontent-length: {}\r\n\r\nhello", value);
        let (resp, _) = parse_response(incoming.as_bytes(), HttpMethod::Get).unwrap();
        assert_eq!(resp.body.unwrap().raw(), b"hello".to_vec());
    }
}

#[test]
fn lines_end_at_the_line_feed() {
    let mut client = HttpClient::new(MemoryStream::new(b"one\r\ntwo\n\nlast".to_vec()));
    assert_eq!(client.read_line(), b"one\r\n".to_vec());
    assert_eq!(client.read_line(), b"two\n".to_vec());
    assert_eq!(client.read_line(), b"\n".to_vec());
    assert_eq!(client.read_line(), b"last".to_vec());
    assert_eq!(client.read_line(), Vec::<u8>::new());
    assert_eq!(client.into_inner().remaining(), 0);
}

#[test]
fn exact_reads_take_what_there_is() {
    let mut client = HttpClient::new(MemoryStream::new(b"abcdef".to_vec()));
    assert_eq!(client.read_exact(0), Vec::<u8>::new());
    assert_eq!(client.read_exact(4), b"abcd".to_vec());
    assert_eq!(client.read_exact(3), b"ef".to_vec());
    assert_eq!(client.read_exact(1), Vec::<u8>::new());
    assert_eq!(client.read_line(), Vec::<u8>::new());
}

/// A stream that, against all custom, has more to say after its end.
struct Stutter {
    parts: Vec<Option<u8>>,
    at: usize,
}

impl ReadWriter for Stutter {
    fn record(&self) -> Record {
        unreachable!()
    }

    fn read_byte(&mut self) -> Option<u8> {
        let part = self.parts.get(self.at).copied().flatten();
        self.at += 1;
        part
    }

    fn write_all(&mut self, _data: &[u8]) {}
}

#[test]
fn an_ended_stream_is_asked_for_nothing_more() {
    let parts = vec![Some(b'a'), None, Some(b'b'), Some(b'\n')];
    let mut client = HttpClient::new(Stutter { parts, at: 0 });
    assert_eq!(client.read_line(), b"a".to_vec());
    assert_eq!(client.read_line(), Vec::<u8>::new());
    assert_eq!(client.read_exact(2), Vec::<u8>::new());
    assert_eq!(
        client.execute_request(&Request::get("/")).err(),
        Some(HttpError::MalformedStatusLine)
    );
    assert_eq!(client.into_inner().at, 2);
}

#[test]
fn a_client_takes_no_byte_behind_the_response() {
    let cases: [(&[u8], usize); 5] = [
        (b"HTTP/1.1 200 OK\r\ncontent-length: 2\r\n\r\nhiNEXT", 4),
        (b"HTTP/1.1 204 OK\r\ncontent-length: 2\r\n\r\nhiNEXT", 6),
        (b"HTTP/1.1 200 OK\r\ntransfer-encoding: chunked\r\n\r\n2\r\nhi\r\n0\r\n\r\nNEXT", 4),
        (b"HTTP/1.1 200 OK\r\n\r\nNEXT", 4),
        (b"HTTP/1.1 200 OK\r\nbroken\r\nNEXT", 4),
    ];
    for (incoming, left) in cases {
        let mut client = HttpClient::new(MemoryStream::new(incoming.to_vec()));
        let _ = client.execute_request(&Request::get("/"));
        assert_eq!(client.into_inner().remaining(), left);
    }
}

#[test]
fn memory_stream_reads_and_records() {
    let mut stream = MemoryStream::new(vec![7, 8]);
    stream.write_all(b"ab");
    assert_eq!(stream.read_byte(), Some(7));
    stream.write_all(b"");
    stream.write_all(b"c");
    assert_eq!(stream.read_byte(), Some(8));
    assert_eq!(stream.read_byte(), None);
    assert_eq!(stream.read_byte(), None);
    assert_eq!(stream.written(), b"abc".to_vec());
}

#[test]
fn one_client_runs_exchanges_one_after_the_other() {
    let incoming =
        b"HTTP/1.1 200 OK\r\ncontent-length: 2\r\n\r\nhiHTTP/1.1 204 No Content\r\n\r\nHTTP/1.1 500 X\r\n\r\n";
    let mut client = HttpClient::new(MemoryStream::new(incoming.to_vec()));
    let first = client.execute_request(&Request::get("/a")).unwrap();
    assert_eq!(first.status, 200);
    assert_eq!(first.clone().body.unwrap().raw(), b"hi".to_vec());
    let second = client.execute_request(&Request::delete("/b")).unwrap();
    assert_eq!(second.status, 204);
    assert!(second.body.is_none());
    let third = client.execute_request(&Request::head("/c")).unwrap();
    assert_eq!(third.status, 500);
    let fourth = client.execute_request(&Request::head("/d"));
    assert_eq!(fourth.err(), Some(HttpError::MalformedStatusLine));
    assert_eq!(
        String::from_utf8(client.into_inner().written()).unwrap(),
        "GET /a HTTP/1.1\r\nHost: localhost\r\n\r\n\r\nDELETE /b HTTP/1.1\r\nHost: localhost\r\n\r\n\r\nHEAD /c HTTP/1.1\r\nHost: localhost\r\n\r\n\r\nHEAD /d HTTP/1.1\r\nHost: localhost\r\n\r\n\r\n"
    );
}

#[test]
fn a_head_request_leaves_the_announced_body_in_the_stream() {
    let incoming = b"HTTP/1.1 200 OK\r\ncontent-length: 5\r\n\r\nhello";
    for req in [Request::head("/"), Request::options("/")] {
        let mut client = HttpClient::new(MemoryStream::new(incoming.to_vec()));
        let resp = client.execute_request(&req).unwrap();
        assert!(resp.body.is_none());
        assert_eq!(resp.header.get("Content-Length").unwrap(), "5");
        assert_eq!(client.read_exact(9), b"hello".to_vec());
    }
}
