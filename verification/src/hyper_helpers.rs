//! Reading HTTP headers and size-limited bodies.
//!
//! The header map is hyper's. Of it the library knows the values stored under a name, in
//! the order in which the map hands them out. Reading a body is split in two: the caller
//! awaits each chunk, and [`BodyReader`] decides what becomes of it.

use crate::error::GenericTransportError;
use hyper::header::{HeaderMap, HeaderValue};
use vstd::prelude::*;

verus! {

/// hyper's multimap of header names to values.
#[verifier::external_type_specification]
#[verifier::external_body]
#[verifier::reject_recursive_types(T)]
pub struct ExHeaderMap<T>(hyper::header::HeaderMap<T>);

/// The value of one header field.
#[verifier::external_type_specification]
#[verifier::external_body]
pub struct ExHeaderValue(hyper::header::HeaderValue);

/// The bytes of the values that the map holds for the header called `name`, in the order
/// in which `HeaderMap::get_all` hands them out.
pub uninterp spec fn header_values(
    headers: hyper::header::HeaderMap<hyper::header::HeaderValue>,
    name: Seq<char>,
) -> Seq<Seq<u8>>;

/// The bytes of a header value.
pub uninterp spec fn header_value_bytes(value: hyper::header::HeaderValue) -> Seq<u8>;

/// A byte that a header value may hold as text: printable ASCII, a space or a tab.
pub open spec fn is_visible_ascii(byte: u8) -> bool {
    (32 <= byte < 127) || byte == 9
}

/// Every byte is visible ASCII.
pub open spec fn all_visible_ascii(bytes: Seq<u8>) -> bool {
    forall|i: int| 0 <= i < bytes.len() ==> is_visible_ascii(#[trigger] bytes[i])
}

/// ASCII bytes as text.
pub open spec fn ascii_text(bytes: Seq<u8>) -> Seq<char> {
    Seq::new(bytes.len(), |i: int| bytes[i] as char)
}

/// The text of a header that has exactly one value, made of visible ASCII. A header that
/// is missing, occurs more than once or holds other bytes has no text.
pub open spec fn single_text(values: Seq<Seq<u8>>) -> Option<Seq<char>> {
    if values.len() == 1 && all_visible_ascii(values[0]) {
        Some(ascii_text(values[0]))
    } else {
        None
    }
}

/// The character is a decimal digit.
pub open spec fn is_digit(c: char) -> bool {
    48 <= c as u32 <= 57
}

/// The number that a sequence of decimal digits denotes.
pub open spec fn digits_value(digits: Seq<char>) -> nat
    decreases digits.len(),
{
    if digits.len() == 0 {
        0
    } else {
        digits_value(digits.drop_last()) * 10 + (digits.last() as u32 - 48) as nat
    }
}

/// Every character is a decimal digit.
pub open spec fn all_digits(digits: Seq<char>) -> bool {
    forall|i: int| 0 <= i < digits.len() ==> is_digit(#[trigger] digits[i])
}

/// The text without the `+` that it may start with.
pub open spec fn unsigned_part(text: Seq<char>) -> Seq<char> {
    if text.len() > 0 && text[0] == '+' {
        text.skip(1)
    } else {
        text
    }
}

/// The number that a text denotes in decimal, if it fits 32 bits: an optional `+`, then
/// one or more digits and nothing else.
pub open spec fn decimal_u32(text: Seq<char>) -> Option<u32> {
    let digits = unsigned_part(text);
    if digits.len() > 0 && all_digits(digits) && digits_value(digits) <= u32::MAX {
        Some(digits_value(digits) as u32)
    } else {
        None
    }
}

/// The length that the headers declare for the body: the text of the only
/// `content-length` header as a decimal number of 32 bits.
pub open spec fn content_length(headers: HeaderMap<HeaderValue>) -> Option<u32> {
    match single_text(header_values(headers, "content-length"@)) {
        Some(text) => decimal_u32(text),
        None => None,
    }
}

/// Returns all values for a given header name, as `HeaderMap::get_all` iterates them.
#[verifier::external_body]
pub fn read_header_values<'a>(headers: &'a HeaderMap<HeaderValue>, header_name: &str) -> (values: Vec<
    &'a HeaderValue,
>)
    ensures
        values@.len() == header_values(*headers, header_name@).len(),
        forall|i: int|
            0 <= i < values@.len() ==> header_value_bytes(*#[trigger] values@[i]) == header_values(
                *headers,
                header_name@,
            )[i],
{
    headers.get_all(header_name).iter().collect()
}

/// `HeaderValue::to_str`: the value as text if all its bytes are visible ASCII.
#[verifier::external_body]
fn header_value_str<'a>(value: &'a HeaderValue) -> (text: Option<&'a str>)
    ensures
        match text {
            Some(text) => all_visible_ascii(header_value_bytes(*value)) && text@ == ascii_text(
                header_value_bytes(*value),
            ),
            None => !all_visible_ascii(header_value_bytes(*value)),
        },
{
    value.to_str().ok()
}

/// `str::parse::<u32>`: the number that the text denotes in decimal.
#[verifier::external_body]
fn parse_u32(text: &str) -> (number: Option<u32>)
    ensures
        number == decimal_u32(text@),
{
    text.parse::<u32>().ok()
}

/// Returns a string value when there is exactly one value for the given header.
pub fn read_header_value<'a>(headers: &'a HeaderMap<HeaderValue>, header_name: &str) -> (value: Option<
    &'a str,
>)
    ensures
        match value {
            Some(text) => single_text(header_values(*headers, header_name@)) == Some(text@),
            None => single_text(header_values(*headers, header_name@)) is None,
        },
{
    let values = read_header_values(headers, header_name);
    if values.len() == 1 {
        header_value_str(values[0])
    } else {
        None
    }
}

/// Read the `Content-Length` HTTP Header. Must fit into a `u32`; returns `None` otherwise.
///
/// HTTP sets no limit on the length of a body, so this may reject a valid header.
pub fn read_header_content_length(headers: &HeaderMap<HeaderValue>) -> (length: Option<u32>)
    ensures
        length == content_length(*headers),
{
    match read_header_value(headers, "content-length") {
        Some(text) => parse_u32(text),
        None => None,
    }
}

/// The body that a sequence of chunks amounts to under a size limit, given what was
/// received before: the bytes of all chunks in order, unless a chunk failed or the limit
/// was crossed first.
pub open spec fn read_chunks<E>(chunks: Seq<Result<Vec<u8>, E>>, max: u32, received: Seq<u8>) -> Result<
    Seq<u8>,
    GenericTransportError<E>,
>
    decreases chunks.len(),
{
    if chunks.len() == 0 {
        Ok(received)
    } else {
        match chunks[0] {
            Err(error) => Err(GenericTransportError::Inner(error)),
            Ok(chunk) => if chunk@.len() + received.len() > max {
                Err(GenericTransportError::TooLarge)
            } else {
                read_chunks(chunks.skip(1), max, received + chunk@)
            },
        }
    }
}

/// The body that a response amounts to: rejected at once if the declared length is over
/// the limit, else read chunk by chunk. A missing or unreadable declaration counts as 0.
pub open spec fn read_body<E>(declared: Option<u32>, chunks: Seq<Result<Vec<u8>, E>>, max: u32) -> Result<
    Seq<u8>,
    GenericTransportError<E>,
> {
    if declared is Some && declared->Some_0 > max {
        Err(GenericTransportError::TooLarge)
    } else {
        read_chunks(chunks, max, Seq::empty())
    }
}

/// A body that is read to its end is never longer than the limit, and it starts with what
/// was received before.
pub proof fn lemma_read_chunks_within_limit<E>(chunks: Seq<Result<Vec<u8>, E>>, max: u32, received: Seq<u8>)
    requires
        received.len() <= max,
    ensures
        read_chunks(chunks, max, received) matches Ok(body) ==> body.len() <= max
            && received.is_prefix_of(body),
    decreases chunks.len(),
{
    if chunks.len() > 0 {
        match chunks[0] {
            Ok(chunk) => {
                if chunk@.len() + received.len() <= max {
                    lemma_read_chunks_within_limit(chunks.skip(1), max, received + chunk@);
                }
            },
            Err(_) => {},
        }
    }
}

/// No body over the limit is ever handed out, whatever the headers declare and however
/// the body is cut into chunks.
pub proof fn lemma_body_within_limit<E>(declared: Option<u32>, chunks: Seq<Result<Vec<u8>, E>>, max: u32)
    ensures
        read_body(declared, chunks, max) matches Ok(body) ==> body.len() <= max,
        declared matches Some(length) && length > max ==> read_body(declared, chunks, max)
            == Err::<Seq<u8>, GenericTransportError<E>>(GenericTransportError::TooLarge),
{
    lemma_read_chunks_within_limit(chunks, max, Seq::empty());
}

/// Accumulates the chunks of a body under a size limit.
pub struct BodyReader {
    max: u32,
    received: Vec<u8>,
}

impl BodyReader {
    /// The size limit.
    pub closed spec fn max(self) -> u32 {
        self.max
    }

    /// The bytes accepted so far.
    pub closed spec fn received(self) -> Seq<u8> {
        self.received@
    }

    /// Starts reading a body whose headers declare `declared` bytes.
    ///
    /// A declared length over the limit is rejected with `TooLarge` before anything is
    /// read or reserved. A declared length within the limit is only a hint for the
    /// buffer: the limit is enforced on what arrives.
    pub fn start<E>(declared: Option<u32>, max: u32) -> (reader: Result<
        BodyReader,
        GenericTransportError<E>,
    >)
        ensures
            match reader {
                Ok(reader) => !(declared is Some && declared->Some_0 > max) && reader.max() == max
                    && reader.received() == Seq::<u8>::empty(),
                Err(error) => declared is Some && declared->Some_0 > max && error
                    == GenericTransportError::<E>::TooLarge,
            },
    {
        let body_size = match declared {
            Some(size) => size,
            None => 0,
        };
        if body_size > max {
            return Err(GenericTransportError::TooLarge);
        }
        Ok(BodyReader { max, received: Vec::with_capacity(body_size as usize) })
    }

    /// Takes the next chunk of the body, or the failure to read it.
    ///
    /// A failed read ends with `Inner`. A chunk that would take the body over the limit
    /// ends with `TooLarge`; the reader is unchanged and what it holds is to be discarded.
    pub fn push<E>(&mut self, chunk: Result<Vec<u8>, E>) -> (r: Result<(), GenericTransportError<E>>)
        ensures
            final(self).max() == old(self).max(),
            match chunk {
                Err(error) => r == Err::<(), GenericTransportError<E>>(
                    GenericTransportError::Inner(error),
                ) && final(self).received() == old(self).received(),
                Ok(bytes) => if bytes@.len() + old(self).received().len() > old(self).max() {
                    r == Err::<(), GenericTransportError<E>>(GenericTransportError::TooLarge)
                        && final(self).received() == old(self).received()
                } else {
                    r == Ok::<(), GenericTransportError<E>>(()) && final(self).received() == old(
                        self,
                    ).received() + bytes@
                },
            },
    {
        match chunk {
            Err(error) => Err(GenericTransportError::Inner(error)),
            Ok(bytes) => {
                let limit = self.max as usize;
                if self.received.len() > limit || bytes.len() > limit - self.received.len() {
                    return Err(GenericTransportError::TooLarge);
                }
                self.received.extend_from_slice(bytes.as_slice());
                Ok(())
            },
        }
    }

    /// The body, once the last chunk is in.
    pub fn finish(self) -> (body: Vec<u8>)
        ensures
            body@ == self.received(),
    {
        self.received
    }
}

/// Reads a response body that arrived in `body`, chunk by chunk, under a size limit.
///
/// Returns `Ok(bytes)` if the body was in valid size range.
/// Returns `Err` if the body was too large or the body couldn't be read.
pub fn read_response_to_body<E>(
    headers: &HeaderMap<HeaderValue>,
    body: Vec<Result<Vec<u8>, E>>,
    max_request_body_size: u32,
) -> (r: Result<Vec<u8>, GenericTransportError<E>>)
    ensures
        match r {
            Ok(bytes) => read_body(content_length(*headers), body@, max_request_body_size) == Ok::<
                Seq<u8>,
                GenericTransportError<E>,
            >(bytes@),
            Err(error) => read_body(content_length(*headers), body@, max_request_body_size)
                == Err::<Seq<u8>, GenericTransportError<E>>(error),
        },
{
    let mut reader = match BodyReader::start(
        read_header_content_length(headers),
        max_request_body_size,
    ) {
        Ok(reader) => reader,
        Err(error) => {
            return Err(error);
        },
    };
    let ghost chunks = body@;
    let ghost target = read_chunks(chunks, max_request_body_size, Seq::empty());
    let mut pending = body;
    let count = pending.len();
    let mut i: usize = 0;
    assert(chunks.skip(0) =~= chunks);
    while i < count
        invariant
            i <= count == chunks.len(),
            chunks == body@,
            pending@.len() == count,
            forall|j: int| i <= j < count ==> #[trigger] pending@[j] == chunks[j],
            reader.max() == max_request_body_size,
            target == read_body(content_length(*headers), chunks, max_request_body_size),
            read_chunks(chunks.skip(i as int), max_request_body_size, reader.received()) == target,
        decreases count - i,
    {
        let mut chunk: Result<Vec<u8>, E> = Ok(Vec::new());
        std::mem::swap(&mut pending[i], &mut chunk);
        proof {
            assert(chunks.skip(i as int)[0] == chunks[i as int]);
            assert(chunks.skip(i as int).skip(1) =~= chunks.skip(i + 1));
        }
        match reader.push(chunk) {
            Ok(()) => {},
            Err(error) => {
                return Err(error);
            },
        }
        i += 1;
    }
    Ok(reader.finish())
}

} // verus!
