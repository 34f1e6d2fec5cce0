//! The head tokenizer.
//!
//! The head of a message is split into its tokens by `httparse`. Verus does
//! not read that crate: what it returns is given a name here, and the
//! parser is verified for every value that the name may stand for.

use vstd::prelude::*;

verus! {

/// The number of headers that a head may hold.
pub const MAX_HEADERS: usize = 128;

/// The name and the value of one header, as the tokenizer found them.
pub struct HeaderTokens {
    pub name: Vec<u8>,
    pub value: Vec<u8>,
}

/// The tokens of a request head.
pub struct RequestTokens {
    /// The number of bytes of the head, the empty line at its end included.
    pub head_len: usize,
    /// The method, such as `GET`.
    pub method: Option<Vec<u8>>,
    /// The request target, such as `/index.html`.
    pub target: Option<Vec<u8>>,
    /// The headers, in their order.
    pub headers: Vec<HeaderTokens>,
}

/// The tokens of a response head.
pub struct ResponseTokens {
    /// The number of bytes of the head, the empty line at its end included.
    pub head_len: usize,
    /// The status code, such as 200.
    pub code: Option<u16>,
    /// The reason phrase, such as `OK`.
    pub reason: Option<Vec<u8>>,
    /// The headers, in their order.
    pub headers: Vec<HeaderTokens>,
}

/// What the tokenizer made of a buffer.
pub enum Tokenized<T> {
    /// The buffer begins with a complete head, which has these tokens.
    Complete(T),
    /// The buffer ends before the head does.
    Partial,
    /// The buffer does not begin with a head; the tokenizer's own words.
    Rejected(String),
}

/// What the name and the value of one header are.
pub struct HeaderTokensView {
    pub name: Seq<u8>,
    pub value: Seq<u8>,
}

/// What the tokens of a request head are.
pub struct RequestTokensView {
    pub head_len: int,
    pub method: Option<Seq<u8>>,
    pub target: Option<Seq<u8>>,
    pub headers: Seq<HeaderTokensView>,
}

/// What the tokens of a response head are.
pub struct ResponseTokensView {
    pub head_len: int,
    pub code: Option<int>,
    pub reason: Option<Seq<u8>>,
    pub headers: Seq<HeaderTokensView>,
}

/// What the outcome of the tokenizer is.
pub enum TokenizedView<T> {
    Complete(T),
    Partial,
    Rejected(Seq<char>),
}

impl View for HeaderTokens {
    type V = HeaderTokensView;

    open spec fn view(&self) -> HeaderTokensView {
        HeaderTokensView { name: self.name@, value: self.value@ }
    }
}

/// What the header tokens of a list are, in order.
pub open spec fn header_token_views(headers: Seq<HeaderTokens>) -> Seq<HeaderTokensView> {
    Seq::new(headers.len(), |k: int| headers[k]@)
}

/// The bytes of an optional token.
pub open spec fn token_view(token: Option<Vec<u8>>) -> Option<Seq<u8>> {
    match token {
        Some(t) => Some(t@),
        None => None,
    }
}

impl View for RequestTokens {
    type V = RequestTokensView;

    open spec fn view(&self) -> RequestTokensView {
        RequestTokensView {
            head_len: self.head_len as int,
            method: token_view(self.method),
            target: token_view(self.target),
            headers: header_token_views(self.headers@),
        }
    }
}

impl View for ResponseTokens {
    type V = ResponseTokensView;

    open spec fn view(&self) -> ResponseTokensView {
        ResponseTokensView {
            head_len: self.head_len as int,
            code: match self.code {
                Some(c) => Some(c as int),
                None => None,
            },
            reason: token_view(self.reason),
            headers: header_token_views(self.headers@),
        }
    }
}

impl<T: View> View for Tokenized<T> {
    type V = TokenizedView<T::V>;

    open spec fn view(&self) -> TokenizedView<T::V> {
        match self {
            Tokenized::Complete(tokens) => TokenizedView::Complete(tokens@),
            Tokenized::Partial => TokenizedView::Partial,
            Tokenized::Rejected(why) => TokenizedView::Rejected(why@),
        }
    }
}

/// What `httparse` makes of a buffer as the head of a request, with room
/// for `capacity` headers.
pub uninterp spec fn request_tokens(buf: Seq<u8>, capacity: usize) -> TokenizedView<RequestTokensView>;

/// What `httparse` makes of a buffer as the head of a response, with room
/// for `capacity` headers.
pub uninterp spec fn response_tokens(buf: Seq<u8>, capacity: usize) -> TokenizedView<ResponseTokensView>;

/// `httparse::Request::parse`, on a fresh request with room for `capacity`
/// headers: the outcome of the parse and, where the head is complete, its
/// length, the method, the path and the headers that the request then holds,
/// each copied out as bytes.
#[verifier::external_body]
pub(crate) fn tokenize_request(buf: &[u8], capacity: usize) -> (r: Tokenized<RequestTokens>)
    requires
        capacity <= MAX_HEADERS,
    ensures
        r@ == request_tokens(buf@, capacity),
{
    let mut slots = vec![httparse::EMPTY_HEADER; capacity];
    let mut head = httparse::Request::new(&mut slots);
    match head.parse(buf) {
        Ok(httparse::Status::Complete(head_len)) => Tokenized::Complete(RequestTokens {
            head_len,
            method: head.method.map(|m| m.as_bytes().to_vec()),
            target: head.path.map(|p| p.as_bytes().to_vec()),
            headers: head.headers.iter().map(|h| HeaderTokens { name: h.name.as_bytes().to_vec(), value: h.value.to_vec() }).collect(),
        }),
        Ok(httparse::Status::Partial) => Tokenized::Partial,
        Err(e) => Tokenized::Rejected(e.to_string()),
    }
}

/// `httparse::Response::parse`, on a fresh response with room for
/// `capacity` headers: the outcome of the parse and, where the head is
/// complete, its length, the code, the reason and the headers that the
/// response then holds, each copied out as bytes.
#[verifier::external_body]
pub(crate) fn tokenize_response(buf: &[u8], capacity: usize) -> (r: Tokenized<ResponseTokens>)
    requires
        capacity <= MAX_HEADERS,
    ensures
        r@ == response_tokens(buf@, capacity),
{
    let mut slots = vec![httparse::EMPTY_HEADER; capacity];
    let mut head = httparse::Response::new(&mut slots);
    match head.parse(buf) {
        Ok(httparse::Status::Complete(head_len)) => Tokenized::Complete(ResponseTokens {
            head_len,
            code: head.code,
            reason: head.reason.map(|p| p.as_bytes().to_vec()),
            headers: head.headers.iter().map(|h| HeaderTokens { name: h.name.as_bytes().to_vec(), value: h.value.to_vec() }).collect(),
        }),
        Ok(httparse::Status::Partial) => Tokenized::Partial,
        Err(e) => Tokenized::Rejected(e.to_string()),
    }
}

} // verus!
