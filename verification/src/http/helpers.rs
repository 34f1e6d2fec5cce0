//! What the headers of a message say of its body.

use crate::error::{ErrorKind, ParseError};
use crate::http::types::{
    header_ref_views, header_views, headers_named, with_name, Header, HeaderView, Request, Response,
};
use crate::text::{eq_ignore_ascii_case, same_ignoring_case, str_eq, trim, trimmed, utf8_str};
use vstd::prelude::*;
use vstd::slice::slice_subrange;
use vstd::string::{StringExecFns, StringSliceAdditionalSpecFns};
use vstd::utf8::{decode_utf8, encode_utf8, valid_utf8};

verus! {

/// A transfer coding that this crate reads.
#[derive(Clone, Copy, Debug, PartialEq, Eq, Structural)]
pub enum TransferCoding {
    /// The body comes in chunks, each behind its size.
    Chunked,
    /// The body comes as it is.
    Identity,
}

impl TransferCoding {
    /// The name of the coding in a `Transfer-Encoding` header.
    pub open spec fn name(self) -> Seq<char> {
        match self {
            TransferCoding::Chunked => "chunked"@,
            TransferCoding::Identity => "identity"@,
        }
    }

    /// The name of the coding in a `Transfer-Encoding` header.
    pub fn as_str(self) -> (s: &'static str)
        ensures
            s@ == self.name(),
    {
        match self {
            TransferCoding::Chunked => "chunked",
            TransferCoding::Identity => "identity",
        }
    }

    /// Whether a text names the coding, whatever the case of its letters.
    pub open spec fn named_by(self, text: Seq<char>) -> bool {
        same_ignoring_case(encode_utf8(text), encode_utf8(self.name()))
    }

    /// Whether a text names the coding, whatever the case of its letters.
    pub fn is_named_by(self, text: &str) -> (b: bool)
        ensures
            b == self.named_by(text@),
    {
        eq_ignore_ascii_case(text.as_bytes(), self.as_str().as_bytes())
    }
}

/// Whether a text names a coding that this crate reads.
pub open spec fn accepted(text: Seq<char>) -> bool {
    TransferCoding::Chunked.named_by(text) || TransferCoding::Identity.named_by(text)
}

/// The names of the codings that this crate reads, as a message lists them.
pub open spec fn accepted_names() -> Seq<char> {
    TransferCoding::Chunked.name() + ", "@ + TransferCoding::Identity.name()
}

/// The text of a header value: the value without the white space around
/// it, where it is valid UTF-8.
pub open spec fn value_text(value: Seq<u8>) -> Option<Seq<char>> {
    if valid_utf8(value) {
        Some(trimmed(decode_utf8(value)))
    } else {
        None
    }
}

/// The texts of a list of values, in order; `None` where one has none.
pub open spec fn texts(values: Seq<Seq<u8>>) -> Option<Seq<Seq<char>>>
    decreases values.len(),
{
    if values.len() == 0 {
        Some(Seq::<Seq<char>>::empty())
    } else {
        match (texts(values.drop_last()), value_text(values.last())) {
            (Some(before), Some(last)) => Some(before.push(last)),
            _ => None,
        }
    }
}

/// The values of a list of headers, in order.
pub open spec fn header_values(headers: Seq<HeaderView>) -> Seq<Seq<u8>> {
    Seq::new(headers.len(), |k: int| headers[k].value.data)
}

/// The items of a comma-separated list: what stands before the first comma,
/// between two commas, and after the last. `from` is where the current item
/// begins, `at` is how far the list has been read.
pub open spec fn items_from(list: Seq<u8>, from: int, at: int) -> Seq<Seq<u8>>
    decreases list.len() - at,
{
    if at >= list.len() {
        seq![list.subrange(from, list.len() as int)]
    } else if list[at] == 44 {
        seq![list.subrange(from, at)] + items_from(list, at + 1, at + 1)
    } else {
        items_from(list, from, at + 1)
    }
}

/// The items of a comma-separated list.
pub open spec fn items(list: Seq<u8>) -> Seq<Seq<u8>> {
    items_from(list, 0, 0)
}

/// The items of the values of a list of headers, each value read as a
/// comma-separated list, in order.
pub open spec fn listed(headers: Seq<HeaderView>) -> Seq<Seq<u8>>
    decreases headers.len(),
{
    if headers.len() == 0 {
        Seq::<Seq<u8>>::empty()
    } else {
        listed(headers.drop_last()) + items(headers.last().value.data)
    }
}

/// The texts that a list of strings holds.
pub open spec fn str_views(strs: Seq<&str>) -> Seq<Seq<char>> {
    Seq::new(strs.len(), |k: int| strs[k]@)
}

/// The bytes of the name of the `Content-Type` header.
pub open spec fn content_type_name() -> Seq<u8> {
    encode_utf8("Content-Type"@)
}

/// The bytes of the name of the `Content-Length` header.
pub open spec fn content_length_name() -> Seq<u8> {
    encode_utf8("Content-Length"@)
}

/// The bytes of the name of the `Transfer-Encoding` header.
pub open spec fn transfer_encoding_name() -> Seq<u8> {
    encode_utf8("Transfer-Encoding"@)
}

/// The content type that a list of headers declares: the text of its
/// first `Content-Type` header, where the values of all of them are texts.
pub open spec fn content_type(headers: Seq<HeaderView>) -> Option<Seq<char>> {
    match texts(header_values(with_name(headers, content_type_name()))) {
        Some(found) if found.len() > 0 => Some(found[0]),
        _ => None,
    }
}

/// The transfer codings that a list of headers declares: the items of its
/// `Transfer-Encoding` headers as texts, in order. `None` where an item is
/// no text.
pub open spec fn codings(headers: Seq<HeaderView>) -> Option<Seq<Seq<char>>> {
    texts(listed(with_name(headers, transfer_encoding_name())))
}

/// Whether every text of a list names a coding that this crate reads.
pub open spec fn all_accepted(found: Seq<Seq<char>>) -> bool {
    forall|k: int| 0 <= k < found.len() ==> accepted(#[trigger] found[k])
}

/// The texts of a list that name no coding that this crate reads, in order.
pub open spec fn unaccepted(found: Seq<Seq<char>>) -> Seq<Seq<char>>
    decreases found.len(),
{
    if found.len() == 0 {
        Seq::<Seq<char>>::empty()
    } else if accepted(found.last()) {
        unaccepted(found.drop_last())
    } else {
        unaccepted(found.drop_last()).push(found.last())
    }
}

/// The transfer coding of a message with the given headers: chunked where
/// a declared coding names it, else identity where one names that.
pub open spec fn transfer_encoding(headers: Seq<HeaderView>) -> Option<TransferCoding> {
    match codings(headers) {
        Some(found) => if exists|k: int|
            0 <= k < found.len() && TransferCoding::Chunked.named_by(#[trigger] found[k]) {
            Some(TransferCoding::Chunked)
        } else if exists|k: int|
            0 <= k < found.len() && TransferCoding::Identity.named_by(#[trigger] found[k]) {
            Some(TransferCoding::Identity)
        } else {
            None
        },
        None => None,
    }
}

/// Whether the declared transfer codings can be read: each of them is a
/// text that names an accepted coding. One coding that is not accepted makes
/// the whole declaration invalid, whatever the others are.
pub open spec fn valid_transfer_encoding(headers: Seq<HeaderView>) -> bool {
    match codings(headers) {
        Some(found) => all_accepted(found),
        None => false,
    }
}

/// Texts joined by a separator.
pub open spec fn joined(parts: Seq<Seq<char>>, separator: Seq<char>) -> Seq<char>
    decreases parts.len(),
{
    if parts.len() == 0 {
        Seq::<char>::empty()
    } else if parts.len() == 1 {
        parts[0]
    } else {
        joined(parts.drop_last(), separator) + separator + parts.last()
    }
}

/// The message for transfer codings that cannot be read: the accepted
/// codings, then the declared ones that are not accepted.
pub open spec fn unsupported_message(headers: Seq<HeaderView>) -> Seq<char> {
    "Transfer-Encoding other than "@ + accepted_names() + " not supported yet: "@ + joined(
        unaccepted(
            match codings(headers) {
                Some(found) => found,
                None => Seq::<Seq<char>>::empty(),
            },
        ),
        ", "@,
    )
}

/// The text of a header value.
fn text_of(value: &[u8]) -> (r: Option<&str>)
    ensures
        match r {
            Some(text) => value_text(value@) == Some(text@),
            None => value_text(value@) is None,
        },
{
    broadcast use vstd::utf8::encode_utf8_decode_utf8;

    match utf8_str(value) {
        Some(text) => {
            assert(decode_utf8(encode_utf8(text@)) == text@);
            Some(trim(text))
        },
        None => None,
    }
}

/// Gets the values of a header field from a list of headers as a list of
/// strings, each without the white space around it.
/// Returns a `ParseError` if any of the values are not valid UTF-8.
pub fn get_header_values_from_iter<'a>(header_name: &str, headers: &[&'a Header]) -> (r: Result<
    Vec<&'a str>,
    ParseError,
>)
    ensures
        match r {
            Ok(found) => texts(header_values(header_ref_views(headers@))) == Some(
                str_views(found@),
            ),
            Err(e) => {
                &&& texts(header_values(header_ref_views(headers@))) is None
                &&& e.kind == ErrorKind::InvalidEncoding
                &&& e.message@ == "Invalid UTF-8 when parsing "@ + header_name@
                    + " header value"@
            },
        },
{
    let ghost values = header_values(header_ref_views(headers@));
    let mut found: Vec<&'a str> = Vec::new();
    let mut i: usize = 0;
    assert(values.take(0) =~= Seq::<Seq<u8>>::empty());
    assert(str_views(found@) =~= Seq::<Seq<char>>::empty());
    while i < headers.len()
        invariant
            i <= headers.len(),
            values == header_values(header_ref_views(headers@)),
            texts(values.take(i as int)) == Some(str_views(found@)),
        decreases headers.len() - i,
    {
        let ghost before = str_views(found@);
        proof {
            assert(values.take(i + 1).drop_last() =~= values.take(i as int));
            assert(values.take(i + 1).last() == values[i as int]);
        }
        match text_of(headers[i].value.as_bytes()) {
            Some(text) => {
                found.push(text);
                assert(str_views(found@) =~= before.push(text@));
            },
            None => {
                proof {
                    lemma_texts_prefix(values, i + 1);
                }
                let mut message = String::from_str("Invalid UTF-8 when parsing ");
                message.append(header_name);
                message.append(" header value");
                return Err(ParseError { kind: ErrorKind::InvalidEncoding, message });
            },
        }
        i += 1;
    }
    assert(values.take(i as int) =~= values);
    Ok(found)
}

/// Where the first values of a list are not all texts, the values of the
/// whole list are not.
pub proof fn lemma_texts_prefix(values: Seq<Seq<u8>>, n: int)
    requires
        0 <= n <= values.len(),
        texts(values.take(n)) is None,
    ensures
        texts(values) is None,
    decreases values.len() - n,
{
    if n == values.len() {
        assert(values.take(n) =~= values);
    } else {
        assert(values.drop_last().take(n) =~= values.take(n));
        lemma_texts_prefix(values.drop_last(), n);
    }
}

/// Gets the values of a header in a request as a list of strings.
pub fn get_header_values_request<'a>(request: &'a Request, header_name: &str) -> (r: Result<
    Vec<&'a str>,
    ParseError,
>)
    ensures
        match r {
            Ok(found) => texts(header_values(with_name(request@.headers, header_name.spec_bytes())))
                == Some(str_views(found@)),
            Err(e) => {
                &&& texts(header_values(with_name(request@.headers, header_name.spec_bytes())))
                    is None
                &&& e.kind == ErrorKind::InvalidEncoding
            },
        },
{
    let named = request.headers_with_name(header_name);
    get_header_values_from_iter(header_name, named.as_slice())
}

/// Gets the values of a header in a response as a list of strings.
pub fn get_header_values_response<'a>(response: &'a Response, header_name: &str) -> (r: Result<
    Vec<&'a str>,
    ParseError,
>)
    ensures
        match r {
            Ok(found) => texts(
                header_values(with_name(response@.headers, header_name.spec_bytes())),
            ) == Some(str_views(found@)),
            Err(e) => {
                &&& texts(header_values(with_name(response@.headers, header_name.spec_bytes())))
                    is None
                &&& e.kind == ErrorKind::InvalidEncoding
            },
        },
{
    let named = response.headers_with_name(header_name);
    get_header_values_from_iter(header_name, named.as_slice())
}

/// The content type that a list of headers declares.
pub fn content_type_of<'a>(headers: &'a [Header]) -> (r: Option<&'a str>)
    ensures
        match r {
            Some(text) => content_type(header_views(headers@)) == Some(text@),
            None => content_type(header_views(headers@)) is None,
        },
{
    let named = headers_named(headers, "Content-Type");
    match get_header_values_from_iter("Content-Type", named.as_slice()) {
        Ok(found) => {
            if found.len() > 0 {
                assert(str_views(found@)[0] == found@[0]@);
                Some(found[0])
            } else {
                None
            }
        },
        Err(_) => None,
    }
}

/// Gets the content type that a request declares.
pub fn get_content_type_request(request: &Request) -> (r: Option<&str>)
    ensures
        match r {
            Some(text) => content_type(request@.headers) == Some(text@),
            None => content_type(request@.headers) is None,
        },
{
    content_type_of(request.headers.as_slice())
}

/// Gets the content type that a response declares.
pub fn get_content_type_response(response: &Response) -> (r: Option<&str>)
    ensures
        match r {
            Some(text) => content_type(response@.headers) == Some(text@),
            None => content_type(response@.headers) is None,
        },
{
    content_type_of(response.headers.as_slice())
}

/// Whether a content type is that of JSON.
pub fn is_json(content_type: Option<&str>) -> (b: bool)
    ensures
        b == (content_type matches Some(text) && text@ == "application/json"@),
{
    match content_type {
        Some(text) => str_eq(text, "application/json"),
        None => false,
    }
}

/// The byte strings that a list of slices holds.
pub open spec fn slice_views(slices: Seq<&[u8]>) -> Seq<Seq<u8>> {
    Seq::new(slices.len(), |k: int| slices[k]@)
}

/// The items of a comma-separated list.
pub fn split_items<'a>(list: &'a [u8]) -> (r: Vec<&'a [u8]>)
    ensures
        slice_views(r@) == items(list@),
{
    let mut found: Vec<&'a [u8]> = Vec::new();
    let mut from: usize = 0;
    let mut at: usize = 0;
    assert(slice_views(found@) + items_from(list@, 0, 0) =~= items(list@));
    while at < list.len()
        invariant
            from <= at <= list.len(),
            slice_views(found@) + items_from(list@, from as int, at as int) == items(list@),
        decreases list.len() - at,
    {
        if list[at] == 44 {
            let ghost before = slice_views(found@);
            let item = slice_subrange(list, from, at);
            found.push(item);
            proof {
                assert(slice_views(found@) =~= before.push(item@));
                assert(before + (seq![item@] + items_from(list@, at + 1, at + 1)) =~= before.push(
                    item@,
                ) + items_from(list@, at + 1, at + 1));
            }
            from = at + 1;
        }
        at += 1;
    }
    let ghost before = slice_views(found@);
    let item = slice_subrange(list, from, list.len());
    found.push(item);
    proof {
        assert(slice_views(found@) =~= before.push(item@));
        assert(before + seq![item@] =~= before.push(item@));
    }
    found
}

/// The texts of a list of values; `None` where one has none.
pub fn texts_of<'a>(values: &[&'a [u8]]) -> (r: Option<Vec<&'a str>>)
    ensures
        match r {
            Some(found) => texts(slice_views(values@)) == Some(str_views(found@)),
            None => texts(slice_views(values@)) is None,
        },
{
    let ghost all = slice_views(values@);
    let mut found: Vec<&'a str> = Vec::new();
    let mut i: usize = 0;
    assert(all.take(0) =~= Seq::<Seq<u8>>::empty());
    assert(str_views(found@) =~= Seq::<Seq<char>>::empty());
    while i < values.len()
        invariant
            i <= values.len(),
            all == slice_views(values@),
            texts(all.take(i as int)) == Some(str_views(found@)),
        decreases values.len() - i,
    {
        let ghost before = str_views(found@);
        proof {
            assert(all.take(i + 1).drop_last() =~= all.take(i as int));
            assert(all.take(i + 1).last() == all[i as int]);
        }
        match text_of(values[i]) {
            Some(text) => {
                found.push(text);
                assert(str_views(found@) =~= before.push(text@));
            },
            None => {
                proof {
                    lemma_texts_prefix(all, i + 1);
                }
                return None;
            },
        }
        i += 1;
    }
    assert(all.take(i as int) =~= all);
    Some(found)
}

/// The items of the values of a list of headers, each value read as a
/// comma-separated list, in order.
pub fn listed_items<'a>(headers: &[&'a Header]) -> (r: Vec<&'a [u8]>)
    ensures
        slice_views(r@) == listed(header_ref_views(headers@)),
{
    let ghost views = header_ref_views(headers@);
    let mut all: Vec<&'a [u8]> = Vec::new();
    let mut i: usize = 0;
    assert(views.take(0) =~= Seq::<HeaderView>::empty());
    assert(slice_views(all@) =~= Seq::<Seq<u8>>::empty());
    while i < headers.len()
        invariant
            i <= headers.len(),
            views == header_ref_views(headers@),
            slice_views(all@) == listed(views.take(i as int)),
        decreases headers.len() - i,
    {
        let ghost before = slice_views(all@);
        let found = split_items(headers[i].value.as_bytes());
        proof {
            assert(views.take(i + 1).drop_last() =~= views.take(i as int));
            assert(views.take(i + 1).last() == views[i as int]);
        }
        let mut k: usize = 0;
        while k < found.len()
            invariant
                k <= found.len(),
                slice_views(all@) == before + slice_views(found@).take(k as int),
            decreases found.len() - k,
        {
            let ghost seen = slice_views(all@);
            all.push(found[k]);
            proof {
                assert(slice_views(all@) =~= seen.push(found@[k as int]@));
                assert(slice_views(found@).take(k + 1) =~= slice_views(found@).take(
                    k as int,
                ).push(found@[k as int]@));
                assert(before + slice_views(found@).take(k as int).push(found@[k as int]@)
                    =~= seen.push(found@[k as int]@));
            }
            k += 1;
        }
        assert(slice_views(found@).take(k as int) =~= slice_views(found@));
        i += 1;
    }
    assert(views.take(i as int) =~= views);
    all
}

/// The transfer codings that a list of headers declares; `None` where one
/// of them is no text.
pub fn codings_of<'a>(headers: &'a [Header]) -> (r: Option<Vec<&'a str>>)
    ensures
        match r {
            Some(found) => codings(header_views(headers@)) == Some(str_views(found@)),
            None => codings(header_views(headers@)) is None,
        },
{
    let named = headers_named(headers, "Transfer-Encoding");
    let all = listed_items(named.as_slice());
    texts_of(all.as_slice())
}

/// Whether one of the texts names the coding.
fn any_named(found: &[&str], coding: TransferCoding) -> (b: bool)
    ensures
        b == exists|k: int| 0 <= k < found.len() && coding.named_by(#[trigger] str_views(found@)[k]),
{
    let mut i: usize = 0;
    while i < found.len()
        invariant
            i <= found.len(),
            forall|k: int| 0 <= k < i ==> !coding.named_by(#[trigger] str_views(found@)[k]),
        decreases found.len() - i,
    {
        if coding.is_named_by(found[i]) {
            assert(coding.named_by(str_views(found@)[i as int]));
            return true;
        }
        i += 1;
    }
    false
}

/// Whether a text names a coding that this crate reads.
pub fn is_accepted(text: &str) -> (b: bool)
    ensures
        b == accepted(text@),
{
    TransferCoding::Chunked.is_named_by(text) || TransferCoding::Identity.is_named_by(text)
}

/// The texts of a list that name no coding that this crate reads, in order.
pub fn unaccepted_of<'a>(found: &[&'a str]) -> (r: Vec<&'a str>)
    ensures
        str_views(r@) == unaccepted(str_views(found@)),
        r.len() == 0 <==> all_accepted(str_views(found@)),
{
    let ghost all = str_views(found@);
    let mut bad: Vec<&'a str> = Vec::new();
    let mut i: usize = 0;
    assert(all.take(0) =~= Seq::<Seq<char>>::empty());
    assert(str_views(bad@) =~= Seq::<Seq<char>>::empty());
    while i < found.len()
        invariant
            i <= found.len(),
            all == str_views(found@),
            str_views(bad@) == unaccepted(all.take(i as int)),
            bad.len() == 0 <==> all_accepted(all.take(i as int)),
        decreases found.len() - i,
    {
        let ghost before = str_views(bad@);
        let ghost seen = all.take(i as int);
        let ghost now = all.take(i + 1);
        proof {
            assert(now.drop_last() =~= seen);
            assert(now.last() == found@[i as int]@);
            if all_accepted(now) {
                assert forall|k: int| 0 <= k < seen.len() implies accepted(#[trigger] seen[k]) by {
                    assert(seen[k] == now[k]);
                }
            }
            if all_accepted(seen) && accepted(now.last()) {
                assert forall|k: int| 0 <= k < now.len() implies accepted(#[trigger] now[k]) by {
                    if k < seen.len() {
                        assert(now[k] == seen[k]);
                    }
                }
            }
            if !accepted(now.last()) {
                assert(now[i as int] == now.last());
            }
        }
        if !is_accepted(found[i]) {
            bad.push(found[i]);
            assert(str_views(bad@) =~= before.push(found@[i as int]@));
        }
        i += 1;
    }
    assert(all.take(i as int) =~= all);
    bad
}

/// The transfer coding of a message with the given headers.
pub fn transfer_encoding_of(headers: &[Header]) -> (r: Option<TransferCoding>)
    ensures
        r == transfer_encoding(header_views(headers@)),
{
    match codings_of(headers) {
        Some(found) => {
            if any_named(found.as_slice(), TransferCoding::Chunked) {
                Some(TransferCoding::Chunked)
            } else if any_named(found.as_slice(), TransferCoding::Identity) {
                Some(TransferCoding::Identity)
            } else {
                None
            }
        },
        None => None,
    }
}

/// Gets the transfer coding of a request.
/// Returns `None` if none is declared, or the declared ones name neither
/// coding or are no text.
pub fn get_transfer_encoding_request(request: &Request) -> (r: Option<TransferCoding>)
    ensures
        r == transfer_encoding(request@.headers),
{
    transfer_encoding_of(request.headers.as_slice())
}

/// Gets the transfer coding of a response.
/// Returns `None` if none is declared, or the declared ones name neither
/// coding or are no text.
pub fn get_transfer_encoding_response(response: &Response) -> (r: Option<TransferCoding>)
    ensures
        r == transfer_encoding(response@.headers),
{
    transfer_encoding_of(response.headers.as_slice())
}

/// Whether the transfer codings that the headers declare can be read.
pub fn is_valid_transfer_encoding(headers: &[Header]) -> (b: bool)
    ensures
        b == valid_transfer_encoding(header_views(headers@)),
{
    match codings_of(headers) {
        Some(found) => unaccepted_of(found.as_slice()).len() == 0,
        None => false,
    }
}

/// Whether the transfer codings that a request declares can be read.
pub fn is_valid_transfer_encoding_request(request: &Request) -> (b: bool)
    ensures
        b == valid_transfer_encoding(request@.headers),
{
    is_valid_transfer_encoding(request.headers.as_slice())
}

/// Whether the transfer codings that a response declares can be read.
pub fn is_valid_transfer_encoding_response(response: &Response) -> (b: bool)
    ensures
        b == valid_transfer_encoding(response@.headers),
{
    is_valid_transfer_encoding(response.headers.as_slice())
}

/// Texts joined by a separator.
fn join(parts: &[&str], separator: &str) -> (r: String)
    ensures
        r@ == joined(str_views(parts@), separator@),
{
    let ghost all = str_views(parts@);
    let mut out = String::from_str("");
    proof {
        reveal_strlit("");
        assert(out@ =~= Seq::<char>::empty());
        assert(all.take(0) =~= Seq::<Seq<char>>::empty());
    }
    let mut i: usize = 0;
    while i < parts.len()
        invariant
            i <= parts.len(),
            all == str_views(parts@),
            out@ == joined(all.take(i as int), separator@),
        decreases parts.len() - i,
    {
        proof {
            assert(all.take(i + 1).drop_last() =~= all.take(i as int));
            assert(all.take(i + 1).last() == parts@[i as int]@);
            if i == 0 {
                assert(all.take(1)[0] == parts@[0]@);
                assert(Seq::<char>::empty() + parts@[0]@ =~= parts@[0]@);
            }
        }
        if i > 0 {
            out.append(separator);
        }
        out.append(parts[i]);
        i += 1;
    }
    assert(all.take(i as int) =~= all);
    out
}

/// The message for transfer codings that cannot be read.
pub fn invalid_transfer_encoding_message(headers: &[Header]) -> (r: String)
    ensures
        r@ == unsupported_message(header_views(headers@)),
{
    let bad = match codings_of(headers) {
        Some(found) => unaccepted_of(found.as_slice()),
        None => {
            let none: Vec<&str> = Vec::new();
            assert(str_views(none@) =~= Seq::<Seq<char>>::empty());
            none
        },
    };
    let bad_values = join(bad.as_slice(), ", ");
    let mut message = String::from_str("Transfer-Encoding other than ");
    message.append(TransferCoding::Chunked.as_str());
    message.append(", ");
    message.append(TransferCoding::Identity.as_str());
    message.append(" not supported yet: ");
    message.append(bad_values.as_str());
    proof {
        assert(message@ =~= unsupported_message(header_views(headers@)));
    }
    message
}

/// The message for the transfer codings of a request that cannot be read.
pub fn invalid_transfer_encoding_message_request(request: &Request) -> (r: String)
    ensures
        r@ == unsupported_message(request@.headers),
{
    invalid_transfer_encoding_message(request.headers.as_slice())
}

/// The message for the transfer codings of a response that cannot be read.
pub fn invalid_transfer_encoding_message_response(response: &Response) -> (r: String)
    ensures
        r@ == unsupported_message(response@.headers),
{
    invalid_transfer_encoding_message(response.headers.as_slice())
}

} // verus!
