use vstd::prelude::*;

verus! {

/// The request method tag.
#[derive(PartialEq, Eq, Structural, Clone, Copy, Debug)]
pub enum HttpMethod {
    Get,
    Post,
    Put,
    Delete,
    Patch,
    Head,
    Options,
}

impl HttpMethod {
    /// The token that stands for this method on the wire.
    pub open spec fn token(self) -> Seq<char> {
        match self {
            HttpMethod::Get => "GET"@,
            HttpMethod::Post => "POST"@,
            HttpMethod::Put => "PUT"@,
            HttpMethod::Delete => "DELETE"@,
            HttpMethod::Patch => "PATCH"@,
            HttpMethod::Head => "HEAD"@,
            HttpMethod::Options => "OPTIONS"@,
        }
    }

    /// Whether a response to a request with this method carries a body.
    pub open spec fn expects_body(self) -> bool {
        !(self == HttpMethod::Head || self == HttpMethod::Options)
    }

    pub fn as_str(&self) -> (name: &'static str)
        ensures
            name@ == self.token(),
    {
        match self {
            HttpMethod::Get => "GET",
            HttpMethod::Post => "POST",
            HttpMethod::Put => "PUT",
            HttpMethod::Delete => "DELETE",
            HttpMethod::Patch => "PATCH",
            HttpMethod::Head => "HEAD",
            HttpMethod::Options => "OPTIONS",
        }
    }

    pub fn to_string(&self) -> (name: String)
        ensures
            name@ == self.token(),
    {
        String::from_str(self.as_str())
    }
}

impl Default for HttpMethod {
    fn default() -> (m: Self)
        ensures
            m == HttpMethod::Get,
    {
        HttpMethod::Get
    }
}

} // verus!
