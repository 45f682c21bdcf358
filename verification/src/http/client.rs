//! The request that asks the server for its date, and what comes back.
//!
//! Sending and receiving are left to the caller; here the request is built,
//! the response head is parsed and checked, and the server's date and the
//! body's length are read from it.

use vstd::prelude::*;
use vstd::slice::slice_to_vec;
use vstd::string::StringExecFns;
use vstd::utf8::{decode_utf8, valid_utf8};

verus! {

/// The most header fields a response head may carry.
pub const MAX_HEADERS: usize = 16;

/// What goes wrong in an exchange, by the kind of I/O error it is reported as.
#[derive(Copy, Clone, Debug, PartialEq, Eq, Structural)]
pub enum HttpError {
    /// The response does not parse, or holds a status, header name or header
    /// value that is not allowed, or a date that is not UTF-8.
    InvalidData,
    /// The response has no `Date` header.
    NotFound,
    /// The connection closed before the response head was complete.
    UnexpectedEof,
    /// The `Date` header does not hold a date.
    Other,
}

/// One round trip to the server.
///
/// Times are whole nanoseconds: `server_time` and `machine_time` count from
/// the Unix epoch (negative before it), `initiated_at` counts from the fixed
/// but arbitrary origin of the machine's monotonic clock.
#[derive(Copy, Clone, Debug, PartialEq, Eq, Structural)]
pub struct PingResult {
    /// The server's date, with the one-second precision of the `Date` header.
    pub server_time: i128,
    /// The machine's wall clock at the moment the server is assumed to have
    /// written its date: half way between sending and receiving.
    pub machine_time: i128,
    /// The monotonic clock when the request had been sent.
    pub initiated_at: i128,
}

/// The request for `host`.
pub open spec fn request_text(host: Seq<char>) -> Seq<char> {
    "GET / HTTP/1.1\r\nHost: "@ + host + "\r\nConnection: keep-alive\r\nContent-Length: 0\r\n\r\n"@
}

/// Builds the request that is sent to `host` on every run: a `GET` of `/`
/// that keeps the connection open.
pub fn prepare_request(host: &str) -> (r: String)
    ensures
        r@ == request_text(host@),
{
    let mut body = String::from_str("GET / HTTP/1.1\r\n");
    body.append("Host: ");
    body.append(host);
    body.append("\r\n");
    body.append("Connection: keep-alive\r\n");
    body.append("Content-Length: 0\r\n");
    body.append("\r\n");
    proof {
        reveal_strlit("GET / HTTP/1.1\r\n");
        reveal_strlit("Host: ");
        reveal_strlit("\r\n");
        reveal_strlit("Connection: keep-alive\r\n");
        reveal_strlit("Content-Length: 0\r\n");
        reveal_strlit("GET / HTTP/1.1\r\nHost: ");
        reveal_strlit("\r\nConnection: keep-alive\r\nContent-Length: 0\r\n\r\n");
        assert(body@ =~= request_text(host@));
    }
    body
}

/// Whether `b` is an ASCII decimal digit.
pub open spec fn is_digit(b: u8) -> bool {
    48 <= b <= 57
}

/// The number of ASCII digits at the start of `s`.
pub open spec fn digits_len(s: Seq<u8>) -> nat
    decreases s.len(),
{
    if s.len() == 0 || !is_digit(s[0]) {
        0
    } else {
        1 + digits_len(s.drop_first())
    }
}

/// The number that the ASCII digits `s` write in decimal.
pub open spec fn decimal_value(s: Seq<u8>) -> nat
    decreases s.len(),
{
    if s.len() == 0 {
        0
    } else {
        decimal_value(s.drop_last()) * 10 + (s.last() - 48) as nat
    }
}

/// Whether every byte of `s` is an ASCII decimal digit.
pub open spec fn all_digits(s: Seq<u8>) -> bool {
    forall|j: int| 0 <= j < s.len() ==> is_digit(#[trigger] s[j])
}

/// Whether `to_int` returns on `s`: the bytes before the first one that is
/// not a digit stand for a number that fits in a `usize`, and that byte, if
/// there is one, lies below `'0'`.
pub open spec fn to_int_defined(s: Seq<u8>) -> bool {
    &&& digits_len(s) == s.len() || s[digits_len(s) as int] < 48
    &&& decimal_value(s.take(digits_len(s) as int)) <= usize::MAX
}

/// What `to_int` returns: the number for a string of digits only, and no
/// number otherwise.
pub open spec fn spec_to_int(s: Seq<u8>) -> Option<usize> {
    if digits_len(s) == s.len() {
        Some(decimal_value(s) as usize)
    } else {
        None
    }
}

proof fn lemma_digits_len(s: Seq<u8>)
    ensures
        digits_len(s) <= s.len(),
        forall|j: int| 0 <= j < digits_len(s) ==> is_digit(#[trigger] s[j]),
        digits_len(s) < s.len() ==> !is_digit(s[digits_len(s) as int]),
    decreases s.len(),
{
    if s.len() > 0 && is_digit(s[0]) {
        lemma_digits_len(s.drop_first());
        assert forall|j: int| 0 <= j < digits_len(s) implies is_digit(#[trigger] s[j]) by {
            if j > 0 {
                assert(s[j] == s.drop_first()[j - 1]);
            }
        }
    }
}

/// A string of digits only is a run of digits as long as itself.
proof fn lemma_all_digits(s: Seq<u8>)
    requires
        all_digits(s),
    ensures
        digits_len(s) == s.len(),
    decreases s.len(),
{
    if s.len() > 0 {
        assert(all_digits(s.drop_first())) by {
            assert forall|j: int| 0 <= j < s.drop_first().len() implies is_digit(
                #[trigger] s.drop_first()[j],
            ) by {
                assert(s.drop_first()[j] == s[j + 1]);
            }
        }
        lemma_all_digits(s.drop_first());
    }
}

proof fn lemma_decimal_value_grows(s: Seq<u8>, i: int, k: int)
    requires
        0 <= i <= k <= s.len(),
        forall|j: int| 0 <= j < k ==> is_digit(#[trigger] s[j]),
    ensures
        decimal_value(s.take(i)) <= decimal_value(s.take(k)),
    decreases k - i,
{
    if i < k {
        lemma_decimal_value_grows(s, i + 1, k);
        assert(s.take(i + 1).drop_last() =~= s.take(i));
    }
}

/// Reads the value of a `Content-Length` header: ASCII decimal digits give
/// their number; a byte below `'0'` gives no number.
pub fn to_int(value: &[u8]) -> (r: Option<usize>)
    requires
        to_int_defined(value@),
    ensures
        r == spec_to_int(value@),
        all_digits(value@) ==> r == Some(decimal_value(value@) as usize),
        r matches Some(n) ==> n == decimal_value(value@),
        r is None <==> !all_digits(value@),
{
    proof {
        lemma_digits_len(value@);
    }
    let ghost k = digits_len(value@) as int;
    let mut number: usize = 0;
    let mut i: usize = 0;
    while i < value.len()
        invariant
            i <= value@.len(),
            i <= k,
            k == digits_len(value@),
            k <= value@.len(),
            forall|j: int| 0 <= j < k ==> is_digit(#[trigger] value@[j]),
            k < value@.len() ==> !is_digit(value@[k]),
            to_int_defined(value@),
            number == decimal_value(value@.take(i as int)),
        decreases value@.len() - i,
    {
        let byte = value[i];
        if byte < 48 {
            assert(!is_digit(value@[i as int]));
            return None;
        }
        let x: u8 = byte - 48;
        proof {
            lemma_decimal_value_grows(value@, i + 1, k);
            assert(value@.take(i + 1).drop_last() =~= value@.take(i as int));
        }
        number = number * 10 + (x as usize);
        i = i + 1;
    }
    assert(value@.take(value@.len() as int) =~= value@);
    proof {
        if all_digits(value@) {
            lemma_all_digits(value@);
        }
    }
    Some(number)
}

/// Whether `to_int` would stop the program on `value`, which it does when a
/// byte above `'9'` comes before any byte below `'0'`, or the number
/// overflows.
pub fn to_int_panics(value: &[u8]) -> (r: bool)
    ensures
        r == !to_int_defined(value@),
{
    proof {
        lemma_digits_len(value@);
    }
    let ghost k = digits_len(value@) as int;
    let mut number: usize = 0;
    let mut i: usize = 0;
    while i < value.len()
        invariant
            i <= value@.len(),
            i <= k,
            k == digits_len(value@),
            k <= value@.len(),
            forall|j: int| 0 <= j < k ==> is_digit(#[trigger] value@[j]),
            k < value@.len() ==> !is_digit(value@[k]),
            number == decimal_value(value@.take(i as int)),
        decreases value@.len() - i,
    {
        let byte = value[i];
        if byte < 48 {
            return false;
        }
        if byte > 57 {
            return true;
        }
        let x: u8 = byte - 48;
        proof {
            assert(value@.take(i + 1).drop_last() =~= value@.take(i as int));
        }
        if number > (usize::MAX - (x as usize)) / 10 {
            proof {
                lemma_decimal_value_grows(value@, i + 1, k);
            }
            return true;
        }
        number = number * 10 + (x as usize);
        i = i + 1;
    }
    assert(value@.take(value@.len() as int) =~= value@);
    false
}

/// What `httparse::Response::parse` makes of `buf` with room for
/// `max_headers` header fields: `None` when the bytes are not a response
/// head (or carry more fields than there is room for), `Some(None)` when the
/// head is not complete yet, and `Some(Some((pos, code, headers)))` for a
/// complete head that ends just before `pos`, with its status code and its
/// header fields as (name, value) pairs in order.
pub uninterp spec fn response_head_parse(buf: Seq<u8>, max_headers: usize) -> Option<
    Option<(usize, Option<u16>, Seq<(Seq<u8>, Seq<u8>)>)>,
>;

/// Parses a response head through `httparse::Response::parse`, with room for
/// `max_headers` fields. The result is the name `response_head_parse` of the
/// arguments; what the source shows besides is that a complete head ends
/// within `buf`, has its status code set, and fills no more fields than
/// there is room for.
#[verifier::external_body]
fn parse_response(buf: &[u8], max_headers: usize) -> (r: Option<
    Option<(usize, Option<u16>, Vec<(Vec<u8>, Vec<u8>)>)>,
>)
    ensures
        r.deep_view() == response_head_parse(buf@, max_headers),
        r matches Some(Some((pos, code, fields))) ==> pos <= buf@.len() && code is Some
            && fields@.len() <= max_headers,
{
    let mut headers = vec![httparse::EMPTY_HEADER; max_headers];
    let mut response = httparse::Response::new(&mut headers);
    match response.parse(buf) {
        Ok(httparse::Status::Complete(pos)) => Some(Some((pos, response.code,
            response.headers.iter().map(|h| (h.name.as_bytes().to_vec(), h.value.to_vec())).collect()))),
        Ok(httparse::Status::Partial) => Some(None),
        Err(_) => None,
    }
}

/// Whether `b` may stand in a header name: a letter, a digit, or one of
/// ``!#$%&'*+-.^_`|~``.
pub open spec fn is_token_byte(b: u8) -> bool {
    ||| 48 <= b <= 57
    ||| 65 <= b <= 90
    ||| 97 <= b <= 122
    ||| b == 33 || b == 35 || b == 36 || b == 37 || b == 38 || b == 39
    ||| b == 42 || b == 43 || b == 45 || b == 46
    ||| b == 94 || b == 95 || b == 96 || b == 124 || b == 126
}

/// The lower-case form of an ASCII letter; other bytes stay as they are.
pub open spec fn lower_byte(b: u8) -> u8 {
    if 65 <= b <= 90 {
        (b + 32) as u8
    } else {
        b
    }
}

/// Whether `name` is a header name: 1 to 65535 token bytes.
pub open spec fn valid_header_name(name: Seq<u8>) -> bool {
    &&& 1 <= name.len() <= 65535
    &&& forall|i: int| 0 <= i < name.len() ==> is_token_byte(#[trigger] name[i])
}

/// The canonical, lower-case form of a header name.
pub open spec fn lower_name(name: Seq<u8>) -> Seq<u8> {
    name.map_values(|b: u8| lower_byte(b))
}

/// Checks a header name through `http::HeaderName::from_bytes` and returns
/// its canonical form. As the source shows, a name is accepted when it has
/// 1 to 65535 bytes that all map to a non-zero entry of the crate's
/// `HEADER_CHARS` table (the token bytes), and its canonical form maps ASCII
/// upper-case letters to lower case.
#[verifier::external_body]
fn header_name(name: &[u8]) -> (r: Option<Vec<u8>>)
    ensures
        r is Some <==> valid_header_name(name@),
        r matches Some(v) ==> v@ == lower_name(name@),
{
    http::HeaderName::from_bytes(name).ok().map(|n| n.as_str().as_bytes().to_vec())
}

/// Whether `b` may stand in a header value: a tab, or any byte from 32 on
/// but 127.
pub open spec fn is_value_byte(b: u8) -> bool {
    (b >= 32 && b != 127) || b == 9
}

/// Whether every byte of `value` may stand in a header value.
pub open spec fn valid_header_value(value: Seq<u8>) -> bool {
    forall|i: int| 0 <= i < value.len() ==> is_value_byte(#[trigger] value[i])
}

/// Checks a header value through `http::HeaderValue::from_bytes`, which
/// accepts exactly the values whose bytes are tabs or lie from 32 on but
/// for 127.
#[verifier::external_body]
fn header_value_ok(value: &[u8]) -> (r: bool)
    ensures
        r == valid_header_value(value@),
{
    http::HeaderValue::from_bytes(value).is_ok()
}

/// Checks a status code through `http::StatusCode::from_u16`, which accepts
/// exactly the codes from 100 to 999.
#[verifier::external_body]
fn status_code_ok(code: u16) -> (r: bool)
    ensures
        r == (100 <= code <= 999),
{
    http::StatusCode::from_u16(code).is_ok()
}

/// A checked response head: its status code and its header fields, names in
/// canonical form, in the order they came.
pub struct ResponseHead {
    pub status: u16,
    pub headers: Vec<(Vec<u8>, Vec<u8>)>,
}

/// Whether every field has an allowed name and value.
pub open spec fn valid_fields(fields: Seq<(Seq<u8>, Seq<u8>)>) -> bool {
    forall|i: int|
        0 <= i < fields.len() ==> valid_header_name(#[trigger] fields[i].0) && valid_header_value(
            fields[i].1,
        )
}

/// The fields with their names in canonical form.
pub open spec fn canonical_fields(fields: Seq<(Seq<u8>, Seq<u8>)>) -> Seq<(Seq<u8>, Seq<u8>)> {
    fields.map_values(|f: (Seq<u8>, Seq<u8>)| (lower_name(f.0), f.1))
}

/// The checked head of a parsed status code and fields, if they are allowed.
pub open spec fn spec_to_http_parts(code: Option<u16>, fields: Seq<(Seq<u8>, Seq<u8>)>) -> Option<
    (u16, Seq<(Seq<u8>, Seq<u8>)>),
> {
    match code {
        Some(c) => if 100 <= c <= 999 && valid_fields(fields) {
            Some((c, canonical_fields(fields)))
        } else {
            None
        },
        None => None,
    }
}

/// Checks a parsed status code and header fields: the code must lie from
/// 100 to 999, and each field must have an allowed name and value.
pub fn to_http_parts(code: Option<u16>, fields: &Vec<(Vec<u8>, Vec<u8>)>) -> (r: Result<
    ResponseHead,
    HttpError,
>)
    ensures
        match spec_to_http_parts(code, fields.deep_view()) {
            Some((c, fs)) => r matches Ok(h) && h.status == c && h.headers.deep_view() == fs,
            None => r == Err::<ResponseHead, HttpError>(HttpError::InvalidData),
        },
        code matches Some(c) ==> (100 <= c <= 999 && (forall|i: int|
            0 <= i < fields.deep_view().len() ==> valid_header_name(
                #[trigger] fields.deep_view()[i].0,
            ) && valid_header_value(fields.deep_view()[i].1)) ==> (r matches Ok(h) && h.status
            == c && h.headers.deep_view() == canonical_fields(fields.deep_view()))),
        r matches Ok(h) ==> code == Some(h.status) && 100 <= h.status <= 999 && (forall|i: int|
            0 <= i < fields.deep_view().len() ==> valid_header_name(
                #[trigger] fields.deep_view()[i].0,
            ) && valid_header_value(fields.deep_view()[i].1)) && h.headers.deep_view()
            == canonical_fields(fields.deep_view()),
{
    let status = match code {
        Some(c) => c,
        None => return Err(HttpError::InvalidData),
    };
    if !status_code_ok(status) {
        return Err(HttpError::InvalidData);
    }
    let ghost fs = fields.deep_view();
    let mut headers: Vec<(Vec<u8>, Vec<u8>)> = Vec::new();
    let mut i: usize = 0;
    while i < fields.len()
        invariant
            i <= fields@.len(),
            fs == fields.deep_view(),
            fs.len() == fields@.len(),
            100 <= status <= 999,
            code == Some(status),
            forall|j: int|
                0 <= j < i ==> valid_header_name(#[trigger] fs[j].0) && valid_header_value(fs[j].1),
            headers.deep_view() == canonical_fields(fs.take(i as int)),
        decreases fields@.len() - i,
    {
        proof {
            assert(fs[i as int].0 =~= fields@[i as int].0@);
            assert(fs[i as int].1 =~= fields@[i as int].1@);
        }
        let name = match header_name(fields[i].0.as_slice()) {
            Some(n) => n,
            None => {
                assert(!valid_fields(fs));
                return Err(HttpError::InvalidData);
            },
        };
        if !header_value_ok(fields[i].1.as_slice()) {
            assert(!valid_fields(fs));
            return Err(HttpError::InvalidData);
        }
        let value = slice_to_vec(fields[i].1.as_slice());
        let ghost k = i as int;
        assert(valid_header_name(fs[k].0) && valid_header_value(fs[k].1));
        proof {
            assert(fields[i as int].0.deep_view() == fs[i as int].0);
        }
        let ghost before = headers.deep_view();
        let ghost entry = (name@, value@);
        headers.push((name, value));
        proof {
            assert(name.deep_view() =~= name@);
            assert(value.deep_view() =~= value@);
            assert(headers.deep_view() =~= before.push(entry));
            assert(canonical_fields(fs.take(i + 1)) =~= canonical_fields(fs.take(i as int)).push(
                (lower_name(fs[i as int].0), fs[i as int].1),
            ));
        }
        i = i + 1;
        assert forall|j: int| 0 <= j < i implies valid_header_name(#[trigger] fs[j].0)
            && valid_header_value(fs[j].1) by {
            if j == k {
                assert(valid_header_name(fs[k].0));
                assert(valid_header_value(fs[k].1));
            } else {
                assert(j < k);
                assert(valid_header_name(fs[j].0));
                assert(valid_header_value(fs[j].1));
            }
        }
    }
    proof {
        assert(fs.take(fields@.len() as int) =~= fs);
        assert(forall|j: int|
            0 <= j < fields.deep_view().len() ==> valid_header_name(
                #[trigger] fields.deep_view()[j].0,
            ) && valid_header_value(fields.deep_view()[j].1));
        assert(valid_fields(fs));
    }
    Ok(ResponseHead { status, headers })
}

/// Every status code from 100 to 999 passes the check, whatever its class
/// (informational, success, redirection, client or server error), as long as
/// the fields are allowed; no code outside that range does.
pub proof fn lemma_every_status_accepted(c: u16, fields: Seq<(Seq<u8>, Seq<u8>)>)
    ensures
        spec_to_http_parts(Some(c), fields) is Some <==> (100 <= c <= 999 && (forall|i: int|
            0 <= i < fields.len() ==> valid_header_name(#[trigger] fields[i].0)
                && valid_header_value(fields[i].1))),
        100 <= c <= 999 && (forall|i: int|
            0 <= i < fields.len() ==> valid_header_name(#[trigger] fields[i].0)
                && valid_header_value(fields[i].1)) ==> spec_to_http_parts(Some(c), fields) == Some(
            (c, canonical_fields(fields)),
        ),
{
    let allowed = forall|i: int|
        0 <= i < fields.len() ==> valid_header_name(#[trigger] fields[i].0) && valid_header_value(
            fields[i].1,
        );
    if allowed {
        assert forall|i: int| 0 <= i < fields.len() implies valid_header_name(#[trigger] fields[i].0)
            && valid_header_value(fields[i].1) by {
            assert(valid_header_name(fields[i].0));
        }
        assert(valid_fields(fields));
    }
    assert(valid_fields(fields) ==> allowed);
    if 100 <= c <= 999 && allowed {
        assert(spec_to_http_parts(Some(c), fields) == Some((c, canonical_fields(fields))));
    } else {
        assert(spec_to_http_parts(Some(c), fields) is None);
    }
}

/// What `parse_head` makes of the bytes received so far: an error, no head
/// yet, or the checked head and where it ends.
pub open spec fn spec_parse_head(buf: Seq<u8>) -> Result<Option<((u16, Seq<(Seq<u8>, Seq<u8>)>), usize)>, HttpError> {
    match response_head_parse(buf, MAX_HEADERS) {
        None => Err(HttpError::InvalidData),
        Some(None) => Ok(None),
        Some(Some((pos, code, fields))) => match spec_to_http_parts(code, fields) {
            Some(head) => Ok(Some((head, pos))),
            None => Err(HttpError::InvalidData),
        },
    }
}

/// Parses and checks the response head at the start of `buf`, with room for
/// `MAX_HEADERS` fields. `Ok(None)` asks for more bytes.
pub fn parse_head(buf: &[u8]) -> (r: Result<Option<(ResponseHead, usize)>, HttpError>)
    ensures
        match spec_parse_head(buf@) {
            Ok(Some(((c, fs), pos))) => r matches Ok(Some((h, p))) && h.status == c
                && h.headers.deep_view() == fs && p == pos && p <= buf@.len(),
            Ok(None) => r matches Ok(None),
            Err(e) => r == Err::<Option<(ResponseHead, usize)>, HttpError>(e),
        },
        match response_head_parse(buf@, 16usize) {
            None => r == Err::<Option<(ResponseHead, usize)>, HttpError>(HttpError::InvalidData),
            Some(None) => r matches Ok(None),
            Some(Some((pos, code, fs))) => if code is Some && 100 <= code.unwrap() <= 999 && (
            forall|i: int|
                0 <= i < fs.len() ==> valid_header_name(#[trigger] fs[i].0) && valid_header_value(
                    fs[i].1,
                )) {
                r matches Ok(Some((h, p))) && h.status == code.unwrap() && p == pos
                    && h.headers.deep_view() == canonical_fields(fs)
            } else {
                r == Err::<Option<(ResponseHead, usize)>, HttpError>(HttpError::InvalidData)
            },
        },
{
    match parse_response(buf, MAX_HEADERS) {
        None => Err(HttpError::InvalidData),
        Some(None) => Ok(None),
        Some(Some((pos, code, fields))) => {
            let head = to_http_parts(code, &fields)?;
            Ok(Some((head, pos)))
        },
    }
}

/// A complete head with room enough for its fields (at most 16), an allowed
/// status code from 100 to 999 and allowed fields parses to that code and
/// every field, in order, and ends where the parser says it ends.
pub proof fn lemma_parse_head_accepts(
    buf: Seq<u8>,
    pos: usize,
    c: u16,
    fields: Seq<(Seq<u8>, Seq<u8>)>,
)
    ensures
        response_head_parse(buf, 16usize) == Some(Some((pos, Some(c), fields))) && 100 <= c <= 999
            && (forall|i: int|
            0 <= i < fields.len() ==> valid_header_name(#[trigger] fields[i].0)
                && valid_header_value(fields[i].1)) ==> spec_parse_head(buf) == Ok::<
            Option<((u16, Seq<(Seq<u8>, Seq<u8>)>), usize)>,
            HttpError,
        >(Some(((c, canonical_fields(fields)), pos))),
{
}

/// The index of the first field named `name`, if any.
pub open spec fn first_field(fields: Seq<(Seq<u8>, Seq<u8>)>, name: Seq<u8>) -> Option<int>
    decreases fields.len(),
{
    if fields.len() == 0 {
        None
    } else {
        match first_field(fields.drop_last(), name) {
            Some(i) => Some(i),
            None => if fields.last().0 == name {
                Some(fields.len() - 1)
            } else {
                None
            },
        }
    }
}

/// A field found in a prefix is the one found in the whole sequence, and it
/// has the name looked for.
proof fn lemma_first_field_prefix(fields: Seq<(Seq<u8>, Seq<u8>)>, name: Seq<u8>, k: int)
    requires
        0 <= k <= fields.len(),
        first_field(fields.take(k), name) is Some,
    ensures
        first_field(fields, name) == first_field(fields.take(k), name),
    decreases fields.len() - k,
{
    if k < fields.len() {
        assert(fields.take(k + 1).drop_last() =~= fields.take(k));
        lemma_first_field_prefix(fields, name, k + 1);
    } else {
        assert(fields.take(k) =~= fields);
    }
}

/// Whether two byte strings are equal.
fn bytes_eq(a: &[u8], b: &[u8]) -> (r: bool)
    ensures
        r == (a@ == b@),
{
    if a.len() != b.len() {
        return false;
    }
    let mut i: usize = 0;
    while i < a.len()
        invariant
            a@.len() == b@.len(),
            i <= a@.len(),
            forall|j: int| 0 <= j < i ==> a@[j] == b@[j],
        decreases a@.len() - i,
    {
        if a[i] != b[i] {
            return false;
        }
        i = i + 1;
    }
    assert(a@ =~= b@);
    true
}

/// Finds the first field named `name` in a head, as a header map's `get`
/// does; names are compared in canonical form, so `name` is given in lower
/// case.
pub fn find_header(head: &ResponseHead, name: &[u8]) -> (r: Option<usize>)
    ensures
        r matches Some(i) ==> first_field(head.headers.deep_view(), name@) == Some(i as int),
        r is None ==> first_field(head.headers.deep_view(), name@) is None,
        r matches Some(i) ==> i < head.headers@.len() && head.headers.deep_view()[i as int].0
            == name@,
        r matches Some(i) ==> forall|j: int|
            0 <= j < i ==> (#[trigger] head.headers.deep_view()[j]).0 != name@,
        r is None ==> forall|j: int|
            0 <= j < head.headers.deep_view().len() ==> (#[trigger] head.headers.deep_view()[j]).0
                != name@,
{
    let ghost fs = head.headers.deep_view();
    let mut i: usize = 0;
    while i < head.headers.len()
        invariant
            fs == head.headers.deep_view(),
            fs.len() == head.headers@.len(),
            i <= fs.len(),
            first_field(fs.take(i as int), name@) is None,
            forall|j: int| 0 <= j < i ==> (#[trigger] fs[j]).0 != name@,
        decreases fs.len() - i,
    {
        proof {
            assert(fs[i as int].0 =~= head.headers@[i as int].0@);
            assert(fs.take(i + 1).drop_last() =~= fs.take(i as int));
        }
        if bytes_eq(head.headers[i].0.as_slice(), name) {
            proof {
                lemma_first_field_prefix(fs, name@, i + 1);
            }
            return Some(i);
        }
        i = i + 1;
    }
    proof {
        assert(fs.take(fs.len() as int) =~= fs);
    }
    None
}

/// What `std::str::from_utf8` makes of `v`: the text it encodes in UTF-8,
/// or nothing when it is not UTF-8.
#[verifier::external_body]
fn utf8_text(v: &[u8]) -> (r: Option<&str>)
    ensures
        r is Some <==> valid_utf8(v@),
        r matches Some(s) ==> s@ == decode_utf8(v@),
{
    std::str::from_utf8(v).ok()
}

/// What `httpdate::parse_http_date` makes of `text`: the whole seconds from
/// the Unix epoch to the date it writes in one of the three HTTP date
/// formats, or nothing when it writes none.
pub uninterp spec fn http_date_seconds(text: Seq<char>) -> Option<u64>;

/// Parses an HTTP date through `httpdate::parse_http_date`. The result is
/// the name `http_date_seconds` of the text. The crate builds its result as
/// the Unix epoch plus a whole number of seconds, so the conversion to
/// seconds loses nothing and always succeeds.
#[verifier::external_body]
fn parse_http_date(text: &str) -> (r: Option<u64>)
    ensures
        r == http_date_seconds(text@),
{
    match httpdate::parse_http_date(text) {
        Ok(t) => t.duration_since(std::time::UNIX_EPOCH).ok().map(|d| d.as_secs()),
        Err(_) => None,
    }
}

/// The name of the date header, in canonical form.
pub open spec fn date_name() -> Seq<u8> {
    seq![100u8, 97u8, 116u8, 101u8]
}

/// The name of the content-length header, in canonical form.
pub open spec fn content_length_name() -> Seq<u8> {
    seq![99u8, 111u8, 110u8, 116u8, 101u8, 110u8, 116u8, 45u8, 108u8, 101u8, 110u8, 103u8, 116u8, 104u8]
}

/// The server's date in a head, in nanoseconds from the Unix epoch: missing
/// is `NotFound`, not UTF-8 is `InvalidData`, not a date is `Other`.
pub open spec fn spec_server_time(fields: Seq<(Seq<u8>, Seq<u8>)>) -> Result<i128, HttpError> {
    match first_field(fields, date_name()) {
        None => Err(HttpError::NotFound),
        Some(i) => if !valid_utf8(fields[i].1) {
            Err(HttpError::InvalidData)
        } else {
            match http_date_seconds(decode_utf8(fields[i].1)) {
                None => Err(HttpError::Other),
                Some(secs) => Ok((secs * 1_000_000_000) as i128),
            }
        },
    }
}

/// The canonical name of the date header, as bytes.
fn date_header_name() -> (r: Vec<u8>)
    ensures
        r@ == date_name(),
{
    let r = vec![100u8, 97u8, 116u8, 101u8];
    assert(r@ =~= date_name());
    r
}

/// The canonical name of the content-length header, as bytes.
fn content_length_header_name() -> (r: Vec<u8>)
    ensures
        r@ == content_length_name(),
{
    let r = vec![99u8, 111u8, 110u8, 116u8, 101u8, 110u8, 116u8, 45u8, 108u8, 101u8, 110u8, 103u8, 116u8, 104u8];
    assert(r@ =~= content_length_name());
    r
}

/// Reads the server's date from the `Date` header of a head.
pub fn server_time(head: &ResponseHead) -> (r: Result<i128, HttpError>)
    ensures
        r == spec_server_time(head.headers.deep_view()),
{
    let name = date_header_name();
    let i = match find_header(head, name.as_slice()) {
        Some(i) => i,
        None => return Err(HttpError::NotFound),
    };
    let ghost fs = head.headers.deep_view();
    assert(fs[i as int].1 =~= head.headers@[i as int].1@);
    let text = match utf8_text(head.headers[i].1.as_slice()) {
        Some(t) => t,
        None => return Err(HttpError::InvalidData),
    };
    match parse_http_date(text) {
        Some(secs) => Ok((secs as i128) * 1_000_000_000),
        None => Err(HttpError::Other),
    }
}

/// Whether the body's length can be read from a head without stopping the
/// program: a `Content-Length` header, if any, passes `to_int_defined`.
pub open spec fn content_length_defined(fields: Seq<(Seq<u8>, Seq<u8>)>) -> bool {
    match first_field(fields, content_length_name()) {
        None => true,
        Some(i) => to_int_defined(fields[i].1),
    }
}

/// The body's length that a head announces.
pub open spec fn spec_content_length(fields: Seq<(Seq<u8>, Seq<u8>)>) -> Option<usize> {
    match first_field(fields, content_length_name()) {
        None => None,
        Some(i) => spec_to_int(fields[i].1),
    }
}

/// Reads the body's length from the `Content-Length` header of a head: none
/// when the header is missing or does not hold a number, in which case the
/// body is taken to be chunked.
pub fn content_length(head: &ResponseHead) -> (r: Option<usize>)
    requires
        content_length_defined(head.headers.deep_view()),
    ensures
        r == spec_content_length(head.headers.deep_view()),
        first_field(head.headers.deep_view(), content_length_name()) matches Some(i) ==> (
        all_digits(head.headers.deep_view()[i].1) && decimal_value(head.headers.deep_view()[i].1)
            <= usize::MAX ==> r == Some(decimal_value(head.headers.deep_view()[i].1) as usize)),
        first_field(head.headers.deep_view(), content_length_name()) is None ==> r is None,
        first_field(head.headers.deep_view(), content_length_name()) matches Some(i) ==> (r is None
            <==> !all_digits(head.headers.deep_view()[i].1)),
{
    let name = content_length_header_name();
    let i = match find_header(head, name.as_slice()) {
        Some(i) => i,
        None => return None,
    };
    let ghost fs = head.headers.deep_view();
    assert(fs[i as int].1 =~= head.headers@[i as int].1@);
    to_int(head.headers[i].1.as_slice())
}

/// A `Content-Length` value made of digits only announces the number they
/// write, 0 included, and reading it never stops the program.
pub proof fn lemma_content_length_reads_digits(fields: Seq<(Seq<u8>, Seq<u8>)>, i: int)
    requires
        first_field(fields, content_length_name()) == Some(i),
        all_digits(fields[i].1),
        decimal_value(fields[i].1) <= usize::MAX,
    ensures
        content_length_defined(fields),
        spec_content_length(fields) == Some(decimal_value(fields[i].1) as usize),
{
    lemma_all_digits(fields[i].1);
    assert(fields[i].1.take(fields[i].1.len() as int) =~= fields[i].1);
}

/// Whether `content_length` would stop the program on a head.
pub fn content_length_panics(head: &ResponseHead) -> (r: bool)
    ensures
        r == !content_length_defined(head.headers.deep_view()),
{
    let name = content_length_header_name();
    let i = match find_header(head, name.as_slice()) {
        Some(i) => i,
        None => return false,
    };
    let ghost fs = head.headers.deep_view();
    assert(fs[i as int].1 =~= head.headers@[i as int].1@);
    to_int_panics(head.headers[i].1.as_slice())
}

/// The machine's wall clock half way through a round trip that began
/// `elapsed` nanoseconds before `system_now`.
pub fn machine_time(system_now: i128, elapsed: u128) -> (r: i128)
    requires
        system_now - elapsed / 2 >= i128::MIN,
    ensures
        r == system_now - elapsed / 2,
{
    let half: u128 = elapsed / 2;
    if half > i128::MAX as u128 {
        let high: i128 = (half - (i128::MAX as u128)) as i128;
        system_now - i128::MAX - high
    } else {
        system_now - (half as i128)
    }
}

} // verus!
