//! Requests, and the lines of text that write them.
//!
//! A line reads
//!
//! ```text
//! [Sat, 29 Apr 2023 23:16:09 GMT] 7 CREATE "LIMIT_ORDER_BUY 200 100"
//! ```
//!
//! that is: a date and time in square brackets, the order id, the request
//! type and, in double quotes, the order content, with one space between
//! them.

use crate::errors::ParseError;
use crate::orders::{content_of, OrderContent};
use crate::text::{chars_of, find, number, read_number, same_text};
use chrono::DateTime;
use vstd::prelude::*;
use vstd::string::StrSliceExecFns;

verus! {

/// What a request asks the book to do.
#[derive(Clone, Copy, Debug, PartialEq, Eq, Hash, Structural)]
pub enum RequestType {
    Create,
    Replace,
    Cancel,
}

/// A point in time, as read from a line.
#[derive(Clone, Copy, Debug, PartialEq, Eq, Hash, Structural)]
pub struct Timestamp {
    /// Seconds since the start of 1970, UTC, leap seconds not counted.
    pub seconds: i64,
    /// Nanoseconds since the last full second; a thousand million or more
    /// within a leap second.
    pub nanos: u32,
    /// How many seconds the local time of the writer is ahead of UTC.
    pub offset_seconds: i32,
}

impl Timestamp {
    /// Whether this point in time lies before `other`. The offsets take no
    /// part in it.
    pub open spec fn spec_is_before(&self, other: &Timestamp) -> bool {
        self.seconds < other.seconds || (self.seconds == other.seconds && self.nanos
            < other.nanos)
    }

    /// Whether this point in time lies before `other`.
    #[verifier::when_used_as_spec(spec_is_before)]
    pub fn is_before(&self, other: &Timestamp) -> (before: bool)
        ensures
            before == self.spec_is_before(other),
    {
        self.seconds < other.seconds || (self.seconds == other.seconds && self.nanos
            < other.nanos)
    }

    /// Whether this is the same point in time as `other`, whatever the
    /// offsets.
    pub open spec fn spec_is_same_instant(&self, other: &Timestamp) -> bool {
        self.seconds == other.seconds && self.nanos == other.nanos
    }

    /// Whether this is the same point in time as `other`.
    #[verifier::when_used_as_spec(spec_is_same_instant)]
    pub fn is_same_instant(&self, other: &Timestamp) -> (same: bool)
        ensures
            same == self.spec_is_same_instant(other),
    {
        self.seconds == other.seconds && self.nanos == other.nanos
    }
}

/// One request of the stream: what to do, to which order, with what terms.
#[derive(Clone, Copy, Debug, PartialEq, Eq, Hash, Structural)]
pub struct Request {
    /// When the request was made.
    pub timestamp: Timestamp,
    /// The order that the request is about.
    pub order_id: u64,
    /// What is asked for.
    pub request_type: RequestType,
    /// The terms that come with the request; `Empty` where it has none.
    pub content: OrderContent,
}

/// The date and time that `text` writes in the form of RFC 2822, as
/// `DateTime::parse_from_rfc2822` reads it; `None` where it does not read
/// it.
pub uninterp spec fn rfc2822_reading(text: Seq<char>) -> Option<Timestamp>;

/// `DateTime::parse_from_rfc2822`, with the date and time that it reads
/// taken apart by `timestamp`, `timestamp_subsec_nanos` and the offset's
/// `local_minus_utc`.
#[verifier::external_body]
fn parse_rfc2822(text: &str) -> (stamp: Option<Timestamp>)
    ensures
        stamp == rfc2822_reading(text@),
{
    match DateTime::parse_from_rfc2822(text) {
        Ok(read) => Some(
            Timestamp {
                seconds: read.timestamp(),
                nanos: read.timestamp_subsec_nanos(),
                offset_seconds: read.offset().local_minus_utc(),
            },
        ),
        Err(_) => None,
    }
}

/// The request type that `text` writes.
pub open spec fn request_type_of(text: Seq<char>) -> Result<RequestType, ParseError> {
    if text == "CREATE"@ {
        Ok(RequestType::Create)
    } else if text == "REPLACE"@ {
        Ok(RequestType::Replace)
    } else if text == "CANCEL"@ {
        Ok(RequestType::Cancel)
    } else {
        Err(ParseError::UnknownRequestType)
    }
}

impl RequestType {
    /// Reads the request type that `text` writes.
    pub fn parse(text: &str) -> (request_type: Result<RequestType, ParseError>)
        ensures
            request_type == request_type_of(text@),
    {
        let chars = chars_of(text);
        let n = chars.len();
        proof {
            assert(chars@.subrange(0, n as int) =~= chars@);
        }
        if same_text(&chars, 0, n, "CREATE") {
            Ok(RequestType::Create)
        } else if same_text(&chars, 0, n, "REPLACE") {
            Ok(RequestType::Replace)
        } else if same_text(&chars, 0, n, "CANCEL") {
            Ok(RequestType::Cancel)
        } else {
            Err(ParseError::UnknownRequestType)
        }
    }
}

/// The four parts of a line.
pub struct LineParts {
    /// The text between the square brackets.
    pub stamp: Seq<char>,
    /// The text of the order id.
    pub order_id: Seq<char>,
    /// The text of the request type.
    pub request_type: Seq<char>,
    /// The text between the double quotes.
    pub content: Seq<char>,
}

/// Takes `line` apart.
///
/// The line opens with `[`. The date and time run up to the first `]`,
/// which a space follows. The order id runs up to the next space, the
/// request type up to the space after that. What remains opens and ends
/// with `"`, and the content stands between the two.
pub open spec fn line_parts(line: Seq<char>) -> Option<LineParts> {
    if line.len() == 0 || line[0] != '[' {
        None
    } else {
        match line.index_of_first(']') {
            None => None,
            Some(close) => {
                let after = line.skip(close + 1);
                if after.len() == 0 || after[0] != ' ' {
                    None
                } else {
                    let fields = after.skip(1);
                    match fields.index_of_first(' ') {
                        None => None,
                        Some(first) => {
                            let rest = fields.skip(first + 1);
                            match rest.index_of_first(' ') {
                                None => None,
                                Some(second) => {
                                    let quoted = rest.skip(second + 1);
                                    if quoted.len() < 2 || quoted[0] != '"' || quoted.last()
                                        != '"' {
                                        None
                                    } else {
                                        Some(
                                            LineParts {
                                                stamp: line.subrange(1, close),
                                                order_id: fields.subrange(0, first),
                                                request_type: rest.subrange(0, second),
                                                content: quoted.subrange(1, quoted.len() - 1),
                                            },
                                        )
                                    }
                                },
                            }
                        },
                    }
                }
            },
        }
    }
}

/// The request that the parts of a line write, given the date and time
/// read from the first part. The first part that cannot be read, in the
/// order of the line, decides the error.
pub open spec fn request_of(
    stamp: Option<Timestamp>,
    order_id: Seq<char>,
    request_type: Seq<char>,
    content: Seq<char>,
) -> Result<Request, ParseError> {
    match stamp {
        None => Err(ParseError::BadTimestamp),
        Some(timestamp) => match number(order_id) {
            None => Err(ParseError::BadOrderId),
            Some(order_id) => match request_type_of(request_type) {
                Err(error) => Err(error),
                Ok(request_type) => match content_of(content) {
                    Err(error) => Err(error),
                    Ok(content) => Ok(Request { timestamp, order_id, request_type, content }),
                },
            },
        },
    }
}

/// The request that `line` writes.
pub open spec fn request_of_line(line: Seq<char>) -> Result<Request, ParseError> {
    match line_parts(line) {
        None => Err(ParseError::BadLine),
        Some(parts) => request_of(
            rfc2822_reading(parts.stamp),
            parts.order_id,
            parts.request_type,
            parts.content,
        ),
    }
}

/// Where the four parts of a line begin and end.
struct LineSpans {
    stamp: (usize, usize),
    order_id: (usize, usize),
    request_type: (usize, usize),
    content: (usize, usize),
}

/// Whether `span` lies within a text of `n` characters.
spec fn span_fits(span: (usize, usize), n: nat) -> bool {
    span.0 <= span.1 <= n
}

/// The characters of `line` that `span` covers.
spec fn span_text(line: Seq<char>, span: (usize, usize)) -> Seq<char> {
    line.subrange(span.0 as int, span.1 as int)
}

/// Finds the four parts of a line.
fn split_line(chars: &Vec<char>) -> (spans: Option<LineSpans>)
    ensures
        spans is Some <==> line_parts(chars@) is Some,
        spans is Some ==> {
            &&& span_fits(spans->0.stamp, chars@.len())
            &&& span_fits(spans->0.order_id, chars@.len())
            &&& span_fits(spans->0.request_type, chars@.len())
            &&& span_fits(spans->0.content, chars@.len())
            &&& span_text(chars@, spans->0.stamp) == line_parts(chars@)->0.stamp
            &&& span_text(chars@, spans->0.order_id) == line_parts(chars@)->0.order_id
            &&& span_text(chars@, spans->0.request_type) == line_parts(chars@)->0.request_type
            &&& span_text(chars@, spans->0.content) == line_parts(chars@)->0.content
        },
{
    let n = chars.len();
    let ghost line = chars@;
    if n == 0 || chars[0] != '[' {
        return None;
    }
    proof {
        assert(line.subrange(0, n as int) =~= line);
    }
    let close = match find(chars, 0, n, ']') {
        Some(close) => close,
        None => {
            return None;
        },
    };
    assert(close >= 1);
    let ghost after = line.skip(close + 1);
    if close + 1 >= n || chars[close + 1] != ' ' {
        proof {
            if close + 1 < n {
                assert(after[0] == line[close + 1]);
            }
        }
        return None;
    }
    proof {
        assert(after[0] == line[close + 1]);
    }
    let start = close + 2;
    let ghost fields = after.skip(1);
    proof {
        assert(fields =~= line.subrange(start as int, n as int));
    }
    let first = match find(chars, start, n, ' ') {
        Some(first) => first,
        None => {
            return None;
        },
    };
    let ghost rest = fields.skip(first - start + 1);
    proof {
        assert(rest =~= line.subrange(first + 1, n as int));
    }
    let second = match find(chars, first + 1, n, ' ') {
        Some(second) => second,
        None => {
            return None;
        },
    };
    let ghost quoted = rest.skip(second - first);
    proof {
        assert(quoted =~= line.subrange(second + 1, n as int));
        if quoted.len() >= 2 {
            assert(quoted[0] == line[second + 1]);
            assert(quoted.last() == line[n - 1]);
        }
    }
    if n - second < 3 || chars[second + 1] != '"' || chars[n - 1] != '"' {
        return None;
    }
    proof {
        assert(fields.subrange(0, first - start) =~= line.subrange(start as int, first as int));
        assert(rest.subrange(0, second - first - 1) =~= line.subrange(first + 1, second as int));
        assert(quoted.subrange(1, quoted.len() - 1) =~= line.subrange(second + 2, n - 1));
    }
    Some(
        LineSpans {
            stamp: (1, close),
            order_id: (start, first),
            request_type: (first + 1, second),
            content: (second + 2, n - 1),
        },
    )
}

impl Request {
    /// Puts a request together from the parts of a line, of which the date
    /// and time has been read already.
    pub fn assemble(
        stamp: Option<Timestamp>,
        order_id: &str,
        request_type: &str,
        content: &str,
    ) -> (request: Result<Request, ParseError>)
        ensures
            request == request_of(stamp, order_id@, request_type@, content@),
    {
        let timestamp = match stamp {
            Some(timestamp) => timestamp,
            None => {
                return Err(ParseError::BadTimestamp);
            },
        };
        let order_id = match read_number(order_id) {
            Some(order_id) => order_id,
            None => {
                return Err(ParseError::BadOrderId);
            },
        };
        let request_type = match RequestType::parse(request_type) {
            Ok(request_type) => request_type,
            Err(error) => {
                return Err(error);
            },
        };
        match OrderContent::parse(content) {
            Ok(content) => Ok(Request { timestamp, order_id, request_type, content }),
            Err(error) => Err(error),
        }
    }

    /// Reads the request that `line` writes.
    pub fn parse(line: &str) -> (request: Result<Request, ParseError>)
        ensures
            request == request_of_line(line@),
    {
        let chars = chars_of(line);
        let spans = match split_line(&chars) {
            Some(spans) => spans,
            None => {
                return Err(ParseError::BadLine);
            },
        };
        let stamp = parse_rfc2822(line.substring_char(spans.stamp.0, spans.stamp.1));
        Request::assemble(
            stamp,
            line.substring_char(spans.order_id.0, spans.order_id.1),
            line.substring_char(spans.request_type.0, spans.request_type.1),
            line.substring_char(spans.content.0, spans.content.1),
        )
    }
}

impl<'a> TryFrom<&'a str> for RequestType {
    type Error = ParseError;

    /// Reads the request type that `text` writes.
    fn try_from(text: &'a str) -> (request_type: Result<RequestType, ParseError>) {
        RequestType::parse(text)
    }
}

impl<'a> vstd::std_specs::convert::TryFromSpecImpl<&'a str> for RequestType {
    open spec fn obeys_try_from_spec() -> bool {
        true
    }

    open spec fn try_from_spec(text: &'a str) -> Result<RequestType, ParseError> {
        request_type_of(text@)
    }
}

impl<'a> TryFrom<&'a str> for Request {
    type Error = ParseError;

    /// Reads the request that `line` writes.
    fn try_from(line: &'a str) -> (request: Result<Request, ParseError>) {
        Request::parse(line)
    }
}

impl<'a> vstd::std_specs::convert::TryFromSpecImpl<&'a str> for Request {
    open spec fn obeys_try_from_spec() -> bool {
        true
    }

    open spec fn try_from_spec(line: &'a str) -> Result<Request, ParseError> {
        request_of_line(line@)
    }
}

} // verus!
