//! Responses as plain values.

use vstd::prelude::*;

use crate::error::{OciError, OciErrorView};
use crate::order;
use crate::text;

verus! {

/// The method of a request.
#[derive(Debug, Clone, Copy, PartialEq, Eq, Structural)]
pub enum Method {
    Get,
    Head,
    Post,
    Put,
    Patch,
    Delete,
    /// Any other method.
    Other,
}

/// The address of a client, as a number.
#[derive(Debug, Clone, Copy, PartialEq, Eq, Structural)]
pub enum Peer {
    V4(u32),
    V6(u128),
}

impl Peer {
    /// The client is on this machine: 127.0.0.0/8, `::1`, or the former mapped into
    /// IPv6.
    pub open spec fn loopback(self) -> bool {
        match self {
            Peer::V4(a) => a / 0x100_0000 == 127,
            Peer::V6(a) => a == 1 || (a / 0x1_0000_0000 == 0xffff && (a % 0x1_0000_0000)
                / 0x100_0000 == 127),
        }
    }

    pub fn is_loopback(self) -> (r: bool)
        ensures
            r == self.loopback(),
    {
        match self {
            Peer::V4(a) => a / 0x100_0000 == 127,
            Peer::V6(a) => a == 1 || (a / 0x1_0000_0000 == 0xffff && (a % 0x1_0000_0000)
                / 0x100_0000 == 127),
        }
    }
}

/// The character may stand in the value of a header: no control character but the
/// tab.
pub open spec fn may_be_sent(c: char) -> bool {
    (c as u32 >= 32 && c as u32 != 127) || c as u32 == 9
}

/// The text can be the value of a header.
pub open spec fn can_be_sent(value: Seq<char>) -> bool {
    forall|i: int| 0 <= i < value.len() ==> may_be_sent(#[trigger] value[i])
}

/// A header, which is left out where its value cannot be sent.
pub open spec fn one_header(name: Seq<char>, value: Seq<char>) -> Seq<(Seq<char>, Seq<char>)> {
    if can_be_sent(value) {
        seq![(name, value)]
    } else {
        Seq::empty()
    }
}

/// Whether a text can be the value of a header.
pub fn sendable(value: &str) -> (r: bool)
    ensures
        r == can_be_sent(value@),
{
    let chars = text::chars_of(value);
    let mut i: usize = 0;
    while i < chars.len()
        invariant
            i <= chars@.len(),
            chars@ == value@,
            forall|j: int| 0 <= j < i ==> may_be_sent(#[trigger] value@[j]),
        decreases chars@.len() - i,
    {
        let c: u32 = chars[i] as u32;
        if !((c >= 32 && c != 127) || c == 9) {
            assert(!may_be_sent(value@[i as int]));
            return false;
        }
        i = i + 1;
    }
    true
}

/// An error response with headers of its own.
#[derive(Debug)]
pub struct Refusal {
    pub error: OciError,
    pub headers: Vec<(String, String)>,
}

pub struct RefusalView {
    pub error: OciErrorView,
    pub headers: Seq<(Seq<char>, Seq<char>)>,
}

impl View for Refusal {
    type V = RefusalView;

    open spec fn view(&self) -> RefusalView {
        RefusalView { error: self.error@, headers: order::views_of(self.headers@) }
    }
}

impl Refusal {
    /// An error response with one header more, if its value can be sent.
    pub fn with_header(error: OciError, name: &str, value: String) -> (r: Refusal)
        ensures
            r@ == (RefusalView { error: error@, headers: one_header(name@, value@) }),
    {
        let mut headers: Vec<(String, String)> = Vec::new();
        if sendable(value.as_str()) {
            let entry: (String, String) = (name.to_owned(), value);
            headers.push(entry);
        }
        let r = Refusal { error, headers };
        assert(r@.headers =~= one_header(name@, value@));
        r
    }

    /// An error response as it is.
    pub fn plain(error: OciError) -> (r: Refusal)
        ensures
            r@ == (RefusalView { error: error@, headers: Seq::empty() }),
    {
        let r = Refusal { error, headers: Vec::new() };
        assert(r@.headers =~= Seq::<(Seq<char>, Seq<char>)>::empty());
        r
    }
}

/// A manifest that refers to another, as it is listed.
#[derive(Debug, Clone)]
pub struct Referrer {
    pub media_type: String,
    pub digest: String,
    pub size: usize,
    pub artifact_type: Option<String>,
    /// The annotations, as the text of a JSON object.
    pub annotations: Option<String>,
}

pub struct ReferrerView {
    pub media_type: Seq<char>,
    pub digest: Seq<char>,
    pub size: int,
    pub artifact_type: Option<Seq<char>>,
    pub annotations: Option<Seq<char>>,
}

impl View for Referrer {
    type V = ReferrerView;

    open spec fn view(&self) -> ReferrerView {
        ReferrerView {
            media_type: self.media_type@,
            digest: self.digest@,
            size: self.size as int,
            artifact_type: text::opt(self.artifact_type),
            annotations: text::opt(self.annotations),
        }
    }
}

/// What a response carries.
#[derive(Debug, Clone)]
pub enum Body {
    Empty,
    Bytes(Vec<u8>),
    Text(String),
    /// The names of repositories.
    Catalog(Vec<String>),
    /// The tags of a repository.
    Tags { name: String, tags: Vec<String> },
    /// An index of the manifests that refer to one.
    Referrers(Vec<Referrer>),
}

pub enum BodyView {
    Empty,
    Bytes(Seq<u8>),
    Text(Seq<char>),
    Catalog(Seq<Seq<char>>),
    Tags { name: Seq<char>, tags: Seq<Seq<char>> },
    Referrers(Seq<ReferrerView>),
}

impl View for Body {
    type V = BodyView;

    open spec fn view(&self) -> BodyView {
        match *self {
            Body::Empty => BodyView::Empty,
            Body::Bytes(b) => BodyView::Bytes(b@),
            Body::Text(s) => BodyView::Text(s@),
            Body::Catalog(v) => BodyView::Catalog(order::views_of(v@)),
            Body::Tags { name, tags } => BodyView::Tags {
                name: name@,
                tags: order::views_of(tags@),
            },
            Body::Referrers(v) => BodyView::Referrers(order::views_of(v@)),
        }
    }
}

/// A response: its status, its headers with lower-case names, its body.
#[derive(Debug, Clone)]
pub struct Response {
    pub status: u16,
    pub headers: Vec<(String, String)>,
    pub body: Body,
}

pub struct ResponseView {
    pub status: u16,
    pub headers: Seq<(Seq<char>, Seq<char>)>,
    pub body: BodyView,
}

impl View for Response {
    type V = ResponseView;

    open spec fn view(&self) -> ResponseView {
        ResponseView {
            status: self.status,
            headers: order::views_of(self.headers@),
            body: self.body@,
        }
    }
}

/// The outcome of a request as a mathematical value.
pub open spec fn outcome(r: Result<Response, OciError>) -> Result<ResponseView, OciErrorView> {
    match r {
        Ok(x) => Ok(x@),
        Err(e) => Err(e@),
    }
}

impl Response {
    /// A response without headers and body.
    pub fn bare(status: u16) -> (r: Response)
        ensures
            r@ == (ResponseView { status, headers: Seq::empty(), body: BodyView::Empty }),
    {
        let r = Response { status, headers: Vec::new(), body: Body::Empty };
        assert(r@.headers =~= Seq::<(Seq<char>, Seq<char>)>::empty());
        r
    }

    /// With one more header.
    pub fn header(self, name: &str, value: String) -> (r: Response)
        ensures
            r@ == (ResponseView { headers: self@.headers.push((name@, value@)), ..self@ }),
    {
        let mut headers = self.headers;
        let ghost was = order::views_of(headers@);
        let entry: (String, String) = (name.to_owned(), value);
        let ghost e = entry@;
        headers.push(entry);
        assert(order::views_of(headers@) =~= was.push(e));
        Response { status: self.status, headers, body: self.body }
    }

    /// With a body.
    pub fn body(self, body: Body) -> (r: Response)
        ensures
            r@ == (ResponseView { body: body@, ..self@ }),
    {
        Response { status: self.status, headers: self.headers, body }
    }
}

} // verus!
