use http_client::body::Body;
use http_client::error::HttpError;

#[test]
fn read_as_json() {
    let body = Body::new(r#"{"name": "gorilla", "age": 5}"#.as_bytes().to_vec());

    let got = body.json().unwrap();
    let mut want = serde_json::Map::new();
    want.insert("name".into(), serde_json::Value::from("gorilla"));
    want.insert("age".into(), serde_json::Value::from(5));
    assert_eq!(serde_json::Value::Object(want), got);
}

#[test]
fn json_rejects_what_is_no_json() {
    assert_eq!(Body::new(b"{\"name\": ".to_vec()).json(), Err(HttpError::Encoding));
    assert_eq!(Body::new(b"true false".to_vec()).json(), Err(HttpError::Encoding));
    assert_eq!(Body::new(Vec::new()).json(), Err(HttpError::Encoding));
}

#[test]
fn raw_gives_the_bytes_back() {
    let body = Body::new(vec![1, 2, 3, 255]);
    assert_eq!(body.raw(), vec![1, 2, 3, 255]);
    assert_eq!(body.len(), 4);
    assert_eq!(body.clone().raw(), vec![1, 2, 3, 255]);
}

#[test]
fn text_decodes_utf8() {
    assert_eq!(Body::new("héllo".as_bytes().to_vec()).text().unwrap(), "héllo");
    assert_eq!(Body::new(Vec::new()).text().unwrap(), "");
}

#[test]
fn text_rejects_invalid_utf8() {
    assert_eq!(Body::new(vec![b'a', 0xff]).text(), Err(HttpError::Encoding));
    assert_eq!(Body::new(vec![0xc3]).text(), Err(HttpError::Encoding));
}

#[test]
fn errors_describe_themselves() {
    assert_eq!(HttpError::MalformedStatusLine.message(), "cannot get status code");
    assert_eq!(HttpError::MalformedHeaderLine.message(), "invalid header line");
    assert_eq!(HttpError::TruncatedStream.message(), "unexpected end of input");
    assert_eq!(
        HttpError::MissingFraming.message(),
        "missing transfer-encoding or content-length"
    );
    assert_eq!(HttpError::InvalidChunkSize.message(), "cannot read chunk length");
    assert_eq!(HttpError::InvalidContentLength.message(), "invalid content-length");
    assert_eq!(HttpError::Encoding.message(), "invalid encoding");
}
