//! The request and its rendering as the bytes that go over the wire.
use crate::body::Body;
use crate::error::HttpError;
use crate::framing::line_end;
use crate::header::HttpHeader;
use crate::json::text_of;
use crate::json::value_to_text;
use crate::method::HttpMethod;
use crate::ordered::ascending;
use crate::ordered::lemma_ascending_unique;
use crate::params::HttpParams;
use crate::text::decode;
use vstd::prelude::*;
use vstd::utf8::decode_utf8;
use vstd::utf8::encode_utf8;
use vstd::utf8::encode_utf8_valid_utf8;
use vstd::utf8::valid_utf8;

verus! {

/// One request: where it goes, how, and what it carries.
pub struct Request {
    /// The target path; it may hold a query of its own.
    pub url: String,
    /// The host; `localhost` where none is given.
    pub base_url: Option<String>,
    pub method: HttpMethod,
    pub header: Option<HttpHeader>,
    pub params: Option<HttpParams>,
    pub body: Option<Body>,
}

impl Request {
    /// The target of the request line: the path, followed by a question
    /// mark and the query string where parameters are set.
    pub open spec fn target(&self) -> Seq<char> {
        match self.params {
            Some(params) => self.url@ + "?"@ + params.query(),
            None => self.url@,
        }
    }

    /// The host of the `Host` line.
    pub open spec fn host(&self) -> Seq<char> {
        match self.base_url {
            Some(host) => host@,
            None => "localhost"@,
        }
    }

    /// The request line: the method, the target and the version.
    pub open spec fn request_line(&self) -> Seq<char> {
        self.method.token() + " "@ + self.target() + " HTTP/1.1"@
    }

    /// The line that names the host.
    pub open spec fn host_line(&self) -> Seq<char> {
        "Host: "@ + self.host()
    }

    /// The head of the message: the request line, the `Host` line and,
    /// where headers are set, the header block, with a line terminator
    /// between two lines and none at the end.
    pub open spec fn head_text(&self) -> Seq<char> {
        self.request_line() + "\r\n"@ + self.host_line() + match self.header {
            Some(header) => "\r\n"@ + header.block(),
            None => Seq::empty(),
        }
    }

    /// The bytes of the body; none where the request has no body.
    pub open spec fn body_bytes(&self) -> Seq<u8> {
        match self.body {
            Some(body) => body@,
            None => Seq::empty(),
        }
    }

    /// The message as it goes over the wire: the head and the line
    /// terminator that ends its last line, the empty line that ends the
    /// head, the body where there is one, and a last line terminator.
    pub open spec fn wire(&self) -> Seq<u8> {
        encode_utf8(self.head_text()) + line_end() + line_end() + self.body_bytes() + line_end()
    }

    /// Every message ends with a line terminator, and one empty line, no
    /// more and no less, stands between the head and the body. A message
    /// without a body is its head, the empty line and the last line
    /// terminator.
    pub proof fn lemma_wire_shape(&self)
        ensures
            self.wire().len() == encode_utf8(self.head_text()).len() + self.body_bytes().len() + 6,
            self.wire().skip(self.wire().len() - 2) == line_end(),
            self.wire().take(self.wire().len() - 2) == encode_utf8(self.head_text()) + line_end()
                + line_end() + self.body_bytes(),
            self.body is None ==> self.wire() == encode_utf8(self.head_text()) + line_end()
                + line_end() + line_end(),
    {
        let front = encode_utf8(self.head_text()) + line_end() + line_end();
        assert(self.wire() == (front + self.body_bytes()) + line_end());
        if self.body is None {
            assert(front + self.body_bytes() == front);
        }
    }

    /// Whether the headers and the parameters stand in key order, as
    /// every request made by this library's functions has them.
    pub open spec fn in_key_order(&self) -> bool {
        &&& self.header is Some ==> ascending(self.header.unwrap().entries())
        &&& self.params is Some ==> ascending(self.params.unwrap().entries())
    }

    /// A `GET` request for `url` with nothing else set.
    pub fn new(url: String) -> (r: Self)
        ensures
            r == (Request {
                url,
                base_url: None,
                method: HttpMethod::Get,
                header: None,
                params: None,
                body: None,
            }),
    {
        Request {
            url,
            base_url: None,
            method: HttpMethod::Get,
            header: None,
            params: None,
            body: None,
        }
    }

    /// Sets the host.
    pub fn base_url(&mut self, p: String) -> (r: &mut Self)
        ensures
            *r == (Request { base_url: Some(p), ..*old(self) }),
            *final(self) == *final(r),
    {
        self.base_url = Some(p);
        self
    }

    /// Sets the method.
    pub fn method(&mut self, p: HttpMethod) -> (r: &mut Self)
        ensures
            *r == (Request { method: p, ..*old(self) }),
            *final(self) == *final(r),
    {
        self.method = p;
        self
    }

    /// Sets the headers.
    pub fn header(&mut self, p: HttpHeader) -> (r: &mut Self)
        ensures
            *r == (Request { header: Some(p), ..*old(self) }),
            *final(self) == *final(r),
    {
        self.header = Some(p);
        self
    }

    /// Sets the query parameters.
    pub fn params(&mut self, p: HttpParams) -> (r: &mut Self)
        ensures
            *r == (Request { params: Some(p), ..*old(self) }),
            *final(self) == *final(r),
    {
        self.params = Some(p);
        self
    }

    /// Sets the body to the bytes `p`.
    pub fn body(&mut self, p: Vec<u8>) -> (r: &mut Self)
        ensures
            r.body is Some,
            r.body.unwrap()@ == p@,
            *r == (Request { body: r.body, ..*old(self) }),
            *final(self) == *final(r),
    {
        self.body = Some(Body::new(p));
        self
    }

    /// Renders the request as the bytes that go over the wire.
    pub fn build(&self) -> (message: Vec<u8>)
        ensures
            message@ == self.wire(),
            self.in_key_order(),
    {
        let mut head = self.method.to_string();
        head.append(" ");
        head.append(self.url.as_str());
        match &self.params {
            Some(params) => {
                head.append("?");
                let query = params.to_string();
                head.append(query.as_str());
            },
            None => {},
        }
        head.append(" HTTP/1.1");
        head.append("\r\n");
        head.append("Host: ");
        match &self.base_url {
            Some(host) => {
                head.append(host.as_str());
            },
            None => {
                head.append("localhost");
            },
        }
        match &self.header {
            Some(header) => {
                head.append("\r\n");
                let block = header.to_string();
                head.append(block.as_str());
            },
            None => {},
        }
        assert(head@ == self.head_text());
        let mut message = head.as_str().as_bytes_vec();
        message.push(13u8);
        message.push(10u8);
        message.push(13u8);
        message.push(10u8);
        match &self.body {
            Some(body) => {
                let mut data = body.raw();
                message.append(&mut data);
            },
            None => {
                assert(message@ + self.body_bytes() == message@);
            },
        }
        message.push(13u8);
        message.push(10u8);
        message
    }

    /// The request as text. Fails, with `Encoding`, exactly when its
    /// bytes are not valid UTF-8, which only a body can bring about.
    pub fn to_string(&self) -> (r: Result<String, HttpError>)
        ensures
            match r {
                Ok(text) => valid_utf8(self.wire()) && text@ == decode_utf8(self.wire()),
                Err(e) => !valid_utf8(self.wire()) && e == HttpError::Encoding,
            },
    {
        match decode(self.build()) {
            Some(text) => Ok(text),
            None => Err(HttpError::Encoding),
        }
    }

    /// Sets the body to the compact JSON text of `p`.
    pub fn json(&mut self, p: serde_json::Value) -> (r: &mut Self)
        ensures
            r.body is Some,
            r.body.unwrap()@ == encode_utf8(text_of(p)),
            valid_utf8(r.body.unwrap()@),
            *r == (Request { body: r.body, ..*old(self) }),
            *final(self) == *final(r),
    {
        let text = value_to_text(&p);
        proof {
            encode_utf8_valid_utf8(text@);
        }
        self.body(text.as_str().as_bytes_vec())
    }

    /// A request for `url` with the given method and nothing else set.
    fn with_method(url: &str, method: HttpMethod) -> (r: Self)
        ensures
            r.url@ == url@,
            r.method == method,
            r.base_url is None,
            r.header is None,
            r.params is None,
            r.body is None,
    {
        let mut request = Self::new(String::from_str(url));
        request.method(method);
        request
    }

    /// A request for `url` with the given method and the compact JSON
    /// text of `body` as its body.
    fn with_json(url: &str, method: HttpMethod, body: serde_json::Value) -> (r: Self)
        ensures
            r.url@ == url@,
            r.method == method,
            r.base_url is None,
            r.header is None,
            r.params is None,
            r.body is Some,
            r.body.unwrap()@ == encode_utf8(text_of(body)),
            valid_utf8(r.body.unwrap()@),
    {
        let mut request = Self::with_method(url, method);
        request.json(body);
        request
    }

    /// A `GET` request for `url`.
    pub fn get(url: &str) -> (r: Self)
        ensures
            r.url@ == url@,
            r.method == HttpMethod::Get,
            r.base_url is None,
            r.header is None,
            r.params is None,
            r.body is None,
    {
        Self::with_method(url, HttpMethod::Get)
    }

    /// A `POST` request for `url` that carries `body` as JSON text.
    pub fn post(url: &str, body: serde_json::Value) -> (r: Self)
        ensures
            r.url@ == url@,
            r.method == HttpMethod::Post,
            r.base_url is None,
            r.header is None,
            r.params is None,
            r.body is Some,
            r.body.unwrap()@ == encode_utf8(text_of(body)),
            valid_utf8(r.body.unwrap()@),
    {
        Self::with_json(url, HttpMethod::Post, body)
    }

    /// A `PUT` request for `url` that carries `body` as JSON text.
    pub fn put(url: &str, body: serde_json::Value) -> (r: Self)
        ensures
            r.url@ == url@,
            r.method == HttpMethod::Put,
            r.base_url is None,
            r.header is None,
            r.params is None,
            r.body is Some,
            r.body.unwrap()@ == encode_utf8(text_of(body)),
            valid_utf8(r.body.unwrap()@),
    {
        Self::with_json(url, HttpMethod::Put, body)
    }

    /// A `DELETE` request for `url`.
    pub fn delete(url: &str) -> (r: Self)
        ensures
            r.url@ == url@,
            r.method == HttpMethod::Delete,
            r.base_url is None,
            r.header is None,
            r.params is None,
            r.body is None,
    {
        Self::with_method(url, HttpMethod::Delete)
    }

    /// A `PATCH` request for `url` that carries `body` as JSON text.
    pub fn patch(url: &str, body: serde_json::Value) -> (r: Self)
        ensures
            r.url@ == url@,
            r.method == HttpMethod::Patch,
            r.base_url is None,
            r.header is None,
            r.params is None,
            r.body is Some,
            r.body.unwrap()@ == encode_utf8(text_of(body)),
            valid_utf8(r.body.unwrap()@),
    {
        Self::with_json(url, HttpMethod::Patch, body)
    }

    /// A `HEAD` request for `url`.
    pub fn head(url: &str) -> (r: Self)
        ensures
            r.url@ == url@,
            r.method == HttpMethod::Head,
            r.base_url is None,
            r.header is None,
            r.params is None,
            r.body is None,
    {
        Self::with_method(url, HttpMethod::Head)
    }

    /// An `OPTIONS` request for `url`.
    pub fn options(url: &str) -> (r: Self)
        ensures
            r.url@ == url@,
            r.method == HttpMethod::Options,
            r.base_url is None,
            r.header is None,
            r.params is None,
            r.body is None,
    {
        Self::with_method(url, HttpMethod::Options)
    }

    /// Whether two requests have the same parts: path, host, method and
    /// body, and headers and parameters that hold the same entries,
    /// whatever the order in which they were added.
    pub open spec fn same_parts(&self, other: &Request) -> bool {
        &&& self.url@ == other.url@
        &&& self.method == other.method
        &&& self.base_url is Some == other.base_url is Some
        &&& self.base_url is Some ==> self.base_url.unwrap()@ == other.base_url.unwrap()@
        &&& self.header is Some == other.header is Some
        &&& self.header is Some ==> self.header.unwrap()@ == other.header.unwrap()@
        &&& self.params is Some == other.params is Some
        &&& self.params is Some ==> self.params.unwrap()@ == other.params.unwrap()@
        &&& self.body is Some == other.body is Some
        &&& self.body is Some ==> self.body.unwrap()@ == other.body.unwrap()@
    }

    /// Rendering is a function of the parts alone: two requests with the
    /// same parts go over the wire as the same bytes.
    pub proof fn lemma_wire_is_determined(&self, other: &Request)
        requires
            self.in_key_order(),
            other.in_key_order(),
            self.same_parts(other),
        ensures
            self.wire() == other.wire(),
    {
        if self.header is Some {
            let a = self.header.unwrap();
            let b = other.header.unwrap();
            a.lemma_view();
            b.lemma_view();
            lemma_ascending_unique(a.entries(), b.entries());
        }
        if self.params is Some {
            let a = self.params.unwrap();
            let b = other.params.unwrap();
            a.lemma_view();
            b.lemma_view();
            lemma_ascending_unique(a.entries(), b.entries());
        }
    }
}

impl Default for Request {
    fn default() -> (r: Self)
        ensures
            r.url@ == Seq::<char>::empty(),
            r.method == HttpMethod::Get,
            r.base_url is None,
            r.header is None,
            r.params is None,
            r.body is None,
    {
        Request::new(String::new())
    }
}

} // verus!
