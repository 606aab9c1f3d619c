use vstd::prelude::*;
use vstd::slice::{slice_subrange, slice_to_vec};
use vstd::utf8::{decode_utf8, valid_utf8};

use crate::{encode_error, error_reply};

verus! {

/// Line feed, the byte that ends every header line.
pub const LF: u8 = 10;

/// The two header lines of the request grammar.
#[derive(Clone, Copy, Debug)]
pub enum HeaderKind {
    /// `*<N>`: the number of elements of a command.
    Array,
    /// `$<L>`: the number of payload bytes of one element.
    Bulk,
}

/// The marker byte that opens a header line of the given kind.
pub open spec fn marker_byte(kind: HeaderKind) -> u8 {
    match kind {
        HeaderKind::Array => 42,
        HeaderKind::Bulk => 36,
    }
}

/// A decode failure, in terms of plain values.
pub ghost enum Fault {
    /// The stream ended before the first byte of a header line.
    Closed,
    /// The stream ended in the middle of a frame.
    Io(Seq<char>),
    /// A header line is malformed.
    Protocol(Seq<char>),
    /// These bytes had to be text and are not well-formed UTF-8.
    Utf8(Seq<u8>),
    /// The frame is not complete yet: more bytes are needed.
    Pending,
}

/// Why a frame could not be decoded.
#[derive(Debug)]
pub enum RespError {
    /// The stream ended before the first byte of a frame: of a whole command for
    /// `parse_stream`, of the bulk string for `parse_bulk_string`.
    ConnectionClosed,
    /// The stream ended in the middle of a frame.
    Io(String),
    /// The bytes do not follow the request grammar.
    InvalidProtocol(String),
    /// These bytes had to be text and are not well-formed UTF-8.
    Utf8(Vec<u8>),
    /// The bytes so far are a strict prefix of a frame: read more and decode again.
    Incomplete,
}

impl View for RespError {
    type V = Fault;

    open spec fn view(&self) -> Fault {
        match self {
            RespError::ConnectionClosed => Fault::Closed,
            RespError::Io(m) => Fault::Io(m@),
            RespError::InvalidProtocol(m) => Fault::Protocol(m@),
            RespError::Utf8(b) => Fault::Utf8(b@),
            RespError::Incomplete => Fault::Pending,
        }
    }
}

/// The text that describes a decode failure.
pub open spec fn fault_message(f: Fault) -> Seq<char> {
    match f {
        Fault::Closed => "Connection closed by peer"@,
        Fault::Io(m) => "IO Error: "@ + m,
        Fault::Protocol(m) => "Protocol Error: "@ + m,
        Fault::Utf8(_) => "UTF-8 Error: invalid UTF-8 in request"@,
        Fault::Pending => "Incomplete frame"@,
    }
}

impl RespError {
    /// The text that describes this failure.
    pub fn message(&self) -> (r: String)
        ensures
            r@ == fault_message(self@),
    {
        match self {
            RespError::ConnectionClosed => String::from_str("Connection closed by peer"),
            RespError::Io(m) => {
                let mut r = String::from_str("IO Error: ");
                r.append(m.as_str());
                r
            },
            RespError::InvalidProtocol(m) => {
                let mut r = String::from_str("Protocol Error: ");
                r.append(m.as_str());
                r
            },
            RespError::Utf8(_) => String::from_str("UTF-8 Error: invalid UTF-8 in request"),
            RespError::Incomplete => String::from_str("Incomplete frame"),
        }
    }
}

/// The error reply that a failure to decode calls for: one for a malformed
/// frame, none when the stream ended or more bytes are needed, since then
/// there is no client left to answer, or nothing to answer yet.
pub open spec fn failure_reply_spec(f: Fault) -> Option<Seq<char>> {
    match f {
        Fault::Protocol(_) => Some(error_reply(fault_message(f))),
        Fault::Utf8(_) => Some(error_reply(fault_message(f))),
        _ => None,
    }
}

/// The error reply to send for a decode failure, if any.
pub fn failure_reply(e: &RespError) -> (r: Option<String>)
    ensures
        match failure_reply_spec(e@) {
            Some(m) => r matches Some(s) && s@ == m,
            None => r is None,
        },
{
    match e {
        RespError::InvalidProtocol(_) | RespError::Utf8(_) => {
            let m = e.message();
            Some(encode_error(m.as_str()))
        },
        _ => None,
    }
}

/// The message carried by a failure that comes from the stream ending mid-frame.
pub open spec fn eof_message() -> Seq<char> {
    "unexpected end of stream"@
}

/// The message for a header line that does not open with the expected marker.
pub open spec fn marker_message(kind: HeaderKind, shown: Seq<char>) -> Seq<char> {
    match kind {
        HeaderKind::Array => "Expected '*', got '"@ + shown + "'"@,
        HeaderKind::Bulk => "Expected '$', got '"@ + shown + "'"@,
    }
}

/// The message for a header line whose count is not a number.
pub open spec fn count_message(kind: HeaderKind, shown: Seq<char>) -> Seq<char> {
    match kind {
        HeaderKind::Array => "Invalid array length: '"@ + shown + "'"@,
        HeaderKind::Bulk => "Invalid bulk string length: '"@ + shown + "'"@,
    }
}

pub open spec fn is_digit(b: u8) -> bool {
    48 <= b && b <= 57
}

pub open spec fn all_digits(s: Seq<u8>) -> bool {
    forall|i: int| 0 <= i < s.len() ==> is_digit(#[trigger] s[i])
}

/// The number that a string of decimal digits denotes.
pub open spec fn digits_value(s: Seq<u8>) -> nat
    decreases s.len(),
{
    if s.len() == 0 {
        0
    } else {
        digits_value(s.drop_last()) * 10 + (s.last() - 48) as nat
    }
}

/// `s` is a count that a header line may carry: one or more digits, and a value that fits a `usize`.
pub open spec fn is_count(s: Seq<u8>) -> bool {
    s.len() > 0 && all_digits(s) && digits_value(s) <= usize::MAX
}

/// The index of the first line feed at or after `i`.
pub open spec fn newline_from(b: Seq<u8>, i: int) -> Option<int>
    decreases b.len() - i,
{
    if i < 0 || i >= b.len() {
        None
    } else if b[i] == LF {
        Some(i)
    } else {
        newline_from(b, i + 1)
    }
}

/// What ends a frame that runs out of bytes: more may come, unless the stream is over.
pub open spec fn short_input<T>(at_end: bool) -> Result<T, Fault> {
    if at_end {
        Err(Fault::Io(eof_message()))
    } else {
        Err(Fault::Pending)
    }
}

/// The message for a header line that does not end with CR LF.
pub open spec fn line_end_message() -> Seq<char> {
    "Expected the header line to end with CR LF"@
}

/// The text of the line `b[p..=e]` without its line ending (CR LF or a lone LF).
pub open spec fn line_text(b: Seq<u8>, p: int, e: int) -> Seq<u8> {
    if e > p && b[e - 1] == 13 {
        b.subrange(p, e - 1)
    } else {
        b.subrange(p, e)
    }
}

/// The header line at `p` as a message shows it: up to its line ending, or up
/// to the end of the input when no LF follows.
pub open spec fn shown_line(b: Seq<u8>, p: int) -> Seq<u8> {
    match newline_from(b, p) {
        Some(e) => line_text(b, p, e),
        None => b.subrange(p, b.len() as int),
    }
}

/// Text shown in a message, or the failure when the bytes are not text.
pub open spec fn shown_fault(
    bytes: Seq<u8>,
    message: spec_fn(Seq<char>) -> Seq<char>,
) -> Fault {
    if valid_utf8(bytes) {
        Fault::Protocol(message(decode_utf8(bytes)))
    } else {
        Fault::Utf8(bytes)
    }
}

/// Decoding the header line of the given kind that starts at `p`:
/// the count it carries and where the line ends.
///
/// A header line is exactly its marker, one or more digits, and CR LF. A wrong
/// marker is a protocol error as soon as its byte is there; any other malformed
/// line is one once its LF is there.
pub open spec fn header_spec(b: Seq<u8>, p: int, kind: HeaderKind, at_end: bool) -> Result<
    (nat, int),
    Fault,
> {
    if p >= b.len() {
        if at_end {
            Err(Fault::Closed)
        } else {
            Err(Fault::Pending)
        }
    } else if b[p] != marker_byte(kind) {
        Err(shown_fault(shown_line(b, p), |s| marker_message(kind, s)))
    } else {
        match newline_from(b, p) {
            None => short_input(at_end),
            Some(e) => {
                if b[e - 1] != 13 {
                    Err(Fault::Protocol(line_end_message()))
                } else {
                    let digits = b.subrange(p + 1, e - 1);
                    if is_count(digits) {
                        Ok((digits_value(digits), e + 1))
                    } else {
                        Err(shown_fault(digits, |s| count_message(kind, s)))
                    }
                }
            },
        }
    }
}

/// Decoding the bulk string that starts at `p`: its text and where it ends.
/// The payload is taken by its declared length, whatever bytes it holds, and the
/// two bytes after it are skipped unread.
pub open spec fn bulk_spec(b: Seq<u8>, p: int, at_end: bool) -> Result<(Seq<char>, int), Fault> {
    match header_spec(b, p, HeaderKind::Bulk, at_end) {
        Err(f) => Err(f),
        Ok((n, q)) => {
            if q + n + 2 > b.len() {
                short_input(at_end)
            } else {
                let payload = b.subrange(q, q + n);
                if valid_utf8(payload) {
                    Ok((decode_utf8(payload), q + n + 2))
                } else {
                    Err(Fault::Utf8(payload))
                }
            }
        },
    }
}

/// Decoding one element of a command: as a lone bulk string, except that a
/// stream that ends before the element's header has cut the command short.
pub open spec fn element_spec(b: Seq<u8>, p: int, at_end: bool) -> Result<(Seq<char>, int), Fault> {
    match bulk_spec(b, p, at_end) {
        Err(Fault::Closed) => Err(Fault::Io(eof_message())),
        r => r,
    }
}

/// Decoding `n` elements in a row from `p`.
pub open spec fn elements_spec(b: Seq<u8>, p: int, n: nat, at_end: bool) -> Result<
    (Seq<Seq<char>>, int),
    Fault,
>
    decreases n,
{
    if n == 0 {
        Ok((Seq::empty(), p))
    } else {
        match elements_spec(b, p, (n - 1) as nat, at_end) {
            Err(f) => Err(f),
            Ok((xs, q)) => match element_spec(b, q, at_end) {
                Err(f) => Err(f),
                Ok((s, r)) => Ok((xs.push(s), r)),
            },
        }
    }
}

/// Decoding the command at the start of `b`: its arguments and how many bytes it spans.
pub open spec fn command_spec(b: Seq<u8>, at_end: bool) -> Result<(Seq<Seq<char>>, int), Fault> {
    match header_spec(b, 0, HeaderKind::Array, at_end) {
        Err(f) => Err(f),
        Ok((n, q)) => elements_spec(b, q, n, at_end),
    }
}

/// Relies on `String::from_utf8`: it accepts exactly the well-formed UTF-8 byte
/// sequences and decodes them; on failure `FromUtf8Error::into_bytes` gives the
/// bytes back.
#[verifier::external_body]
fn utf8_string(bytes: Vec<u8>) -> (r: Result<String, Vec<u8>>)
    ensures
        match r {
            Ok(s) => valid_utf8(bytes@) && s@ == decode_utf8(bytes@),
            Err(v) => !valid_utf8(bytes@) && v@ == bytes@,
        },
{
    match String::from_utf8(bytes) {
        Ok(s) => Ok(s),
        Err(e) => Err(e.into_bytes()),
    }
}

/// The text of `b[lo..hi]`, or those bytes when they are not text.
fn text_of(b: &[u8], lo: usize, hi: usize) -> (r: Result<String, Vec<u8>>)
    requires
        lo <= hi <= b@.len(),
    ensures
        match r {
            Ok(s) => valid_utf8(b@.subrange(lo as int, hi as int)) && s@ == decode_utf8(
                b@.subrange(lo as int, hi as int),
            ),
            Err(v) => !valid_utf8(b@.subrange(lo as int, hi as int)) && v@ == b@.subrange(
                lo as int,
                hi as int,
            ),
        },
{
    utf8_string(slice_to_vec(slice_subrange(b, lo, hi)))
}

fn find_newline(b: &[u8], p: usize) -> (r: Option<usize>)
    ensures
        match r {
            Some(e) => newline_from(b@, p as int) == Some(e as int),
            None => newline_from(b@, p as int) is None,
        },
{
    let mut i: usize = p;
    while i < b.len()
        invariant
            p <= i,
            newline_from(b@, p as int) == newline_from(b@, i as int),
        decreases b.len() - i,
    {
        if b[i] == LF {
            return Some(i);
        }
        i = i + 1;
    }
    None
}

proof fn lemma_digits_value_prefix(s: Seq<u8>, k: int)
    requires
        0 <= k <= s.len(),
    ensures
        digits_value(s.subrange(0, k)) <= digits_value(s) || !all_digits(s),
    decreases s.len(),
{
    if k < s.len() && all_digits(s) {
        let t = s.drop_last();
        assert(all_digits(t));
        lemma_digits_value_prefix(t, k);
        assert(t.subrange(0, k) =~= s.subrange(0, k));
    } else if k == s.len() {
        assert(s.subrange(0, k) =~= s);
    }
}

/// The count that `b[lo..hi]` denotes, if it is one.
fn parse_count(b: &[u8], lo: usize, hi: usize) -> (r: Option<usize>)
    requires
        lo <= hi <= b@.len(),
    ensures
        match r {
            Some(n) => is_count(b@.subrange(lo as int, hi as int)) && n as nat == digits_value(
                b@.subrange(lo as int, hi as int),
            ),
            None => !is_count(b@.subrange(lo as int, hi as int)),
        },
{
    let ghost s = b@.subrange(lo as int, hi as int);
    if lo == hi {
        return None;
    }
    let mut k: usize = lo;
    while k < hi
        invariant
            lo <= k <= hi <= b@.len(),
            s == b@.subrange(lo as int, hi as int),
            forall|i: int| 0 <= i < k - lo ==> is_digit(#[trigger] s[i]),
        decreases hi - k,
    {
        if !(48 <= b[k] && b[k] <= 57) {
            assert(!is_digit(s[k - lo]));
            return None;
        }
        k = k + 1;
    }
    assert(all_digits(s));
    let mut v: usize = 0;
    let mut i: usize = lo;
    while i < hi
        invariant
            lo <= i <= hi <= b@.len(),
            s == b@.subrange(lo as int, hi as int),
            all_digits(s),
            v as nat == digits_value(s.subrange(0, i - lo)),
        decreases hi - i,
    {
        assert(s[i - lo] == b@[i as int]);
        let d = b[i] - 48;
        assert(s.subrange(0, i - lo + 1).drop_last() =~= s.subrange(0, i - lo));
        assert(is_digit(s[i - lo]));
        if v > (usize::MAX - d as usize) / 10 {
            proof {
                lemma_digits_value_prefix(s, i - lo + 1);
            }
            return None;
        }
        v = v * 10 + d as usize;
        i = i + 1;
    }
    assert(s.subrange(0, hi - lo) =~= s);
    Some(v)
}

/// The error for a malformed header line, showing `b[lo..hi]`.
fn protocol_error(
    b: &[u8],
    lo: usize,
    hi: usize,
    kind: HeaderKind,
    about_marker: bool,
) -> (r: RespError)
    requires
        lo <= hi <= b@.len(),
    ensures
        about_marker ==> r@ == shown_fault(
            b@.subrange(lo as int, hi as int),
            |s| marker_message(kind, s),
        ),
        !about_marker ==> r@ == shown_fault(
            b@.subrange(lo as int, hi as int),
            |s| count_message(kind, s),
        ),
{
    match text_of(b, lo, hi) {
        Err(v) => RespError::Utf8(v),
        Ok(shown) => {
            let mut m = match (kind, about_marker) {
                (HeaderKind::Array, true) => String::from_str("Expected '*', got '"),
                (HeaderKind::Bulk, true) => String::from_str("Expected '$', got '"),
                (HeaderKind::Array, false) => String::from_str("Invalid array length: '"),
                (HeaderKind::Bulk, false) => String::from_str("Invalid bulk string length: '"),
            };
            m.append(shown.as_str());
            m.append("'");
            RespError::InvalidProtocol(m)
        },
    }
}

fn short_input_error(at_end: bool) -> (r: RespError)
    ensures
        Err::<(), Fault>(r@) == short_input::<()>(at_end),
{
    if at_end {
        RespError::Io(String::from_str("unexpected end of stream"))
    } else {
        RespError::Incomplete
    }
}

/// Decodes the header line of the given kind that starts at `p`.
fn parse_header(b: &[u8], p: usize, kind: HeaderKind, at_end: bool) -> (r: Result<
    (usize, usize),
    RespError,
>)
    ensures
        match r {
            Ok((n, q)) => header_spec(b@, p as int, kind, at_end) == Ok::<(nat, int), Fault>(
                (n as nat, q as int),
            ),
            Err(e) => header_spec(b@, p as int, kind, at_end) == Err::<(nat, int), Fault>(e@),
        },
{
    if p >= b.len() {
        return if at_end {
            Err(RespError::ConnectionClosed)
        } else {
            Err(RespError::Incomplete)
        };
    }
    let marker: u8 = match kind {
        HeaderKind::Array => 42,
        HeaderKind::Bulk => 36,
    };
    proof {
        lemma_newline_bounds(b@, p as int);
    }
    let found = find_newline(b, p);
    if b[p] != marker {
        let hi = match found {
            Some(e) => if e > p && b[e - 1] == 13 {
                e - 1
            } else {
                e
            },
            None => b.len(),
        };
        return Err(protocol_error(b, p, hi, kind, true));
    }
    let e = match found {
        None => return Err(short_input_error(at_end)),
        Some(e) => e,
    };
    if b[e - 1] != 13 {
        return Err(
            RespError::InvalidProtocol(
                String::from_str("Expected the header line to end with CR LF"),
            ),
        );
    }
    match parse_count(b, p + 1, e - 1) {
        Some(n) => Ok((n, e + 1)),
        None => Err(protocol_error(b, p + 1, e - 1, kind, false)),
    }
}

proof fn lemma_newline_bounds(b: Seq<u8>, i: int)
    ensures
        match newline_from(b, i) {
            Some(e) => i <= e < b.len() && b[e] == LF,
            None => true,
        },
    decreases b.len() - i,
{
    if 0 <= i < b.len() && b[i] != LF {
        lemma_newline_bounds(b, i + 1);
    }
}

/// Decodes the bulk string `$<L>\r\n<L bytes>\r\n` that starts at `pos`, and
/// returns its text with the position just past it.
pub fn parse_bulk_string(input: &[u8], pos: usize, at_end: bool) -> (r: Result<
    (String, usize),
    RespError,
>)
    ensures
        match r {
            Ok((s, q)) => bulk_spec(input@, pos as int, at_end) == Ok::<(Seq<char>, int), Fault>(
                (s@, q as int),
            ),
            Err(e) => bulk_spec(input@, pos as int, at_end) == Err::<(Seq<char>, int), Fault>(
                e@,
            ),
        },
{
    let (n, q) = match parse_header(input, pos, HeaderKind::Bulk, at_end) {
        Err(e) => return Err(e),
        Ok(h) => h,
    };
    proof {
        lemma_header_end(input@, pos as int, HeaderKind::Bulk, at_end);
    }
    if n > input.len() - q || input.len() - q - n < 2 {
        return Err(short_input_error(at_end));
    }
    match text_of(input, q, q + n) {
        Err(v) => Err(RespError::Utf8(v)),
        Ok(s) => Ok((s, q + n + 2)),
    }
}

proof fn lemma_header_end(b: Seq<u8>, p: int, kind: HeaderKind, at_end: bool)
    ensures
        header_spec(b, p, kind, at_end) matches Ok((n, q)) ==> p < q <= b.len(),
{
    if p < b.len() {
        lemma_newline_bounds(b, p);
    }
}

/// Decodes the command `*<N>\r\n` followed by `N` bulk strings at the start of
/// `input`, and returns its arguments in order with the number of bytes it spans.
/// `at_end` says that no byte will follow `input`.
pub fn parse_stream(input: &[u8], at_end: bool) -> (r: Result<(Vec<String>, usize), RespError>)
    ensures
        match r {
            Ok((args, q)) => command_spec(input@, at_end) == Ok::<(Seq<Seq<char>>, int), Fault>(
                (args.deep_view(), q as int),
            ),
            Err(e) => command_spec(input@, at_end) == Err::<(Seq<Seq<char>>, int), Fault>(e@),
        },
{
    let (n, q) = match parse_header(input, 0, HeaderKind::Array, at_end) {
        Err(e) => return Err(e),
        Ok(h) => h,
    };
    assert(command_spec(input@, at_end) == elements_spec(input@, q as int, n as nat, at_end));
    let mut args: Vec<String> = Vec::new();
    let mut pos: usize = q;
    let mut i: usize = 0;
    assert(args.deep_view() =~= Seq::<Seq<char>>::empty());
    while i < n
        invariant
            i <= n,
            command_spec(input@, at_end) == elements_spec(input@, q as int, n as nat, at_end),
            elements_spec(input@, q as int, i as nat, at_end) == Ok::<
                (Seq<Seq<char>>, int),
                Fault,
            >((args.deep_view(), pos as int)),
        decreases n - i,
    {
        match parse_bulk_string(input, pos, at_end) {
            Err(e) => {
                let e = match e {
                    RespError::ConnectionClosed => short_input_error(true),
                    other => other,
                };
                proof {
                    lemma_elements_fail(input@, q as int, i as nat, n as nat, at_end);
                }
                return Err(e);
            },
            Ok((s, next)) => {
                let ghost before = args.deep_view();
                args.push(s);
                assert(args.deep_view() =~= before.push(s@));
                pos = next;
            },
        }
        i = i + 1;
    }
    Ok((args, pos))
}

proof fn lemma_elements_fail(b: Seq<u8>, p: int, i: nat, n: nat, at_end: bool)
    requires
        i < n,
        elements_spec(b, p, i, at_end) is Ok,
        element_spec(b, elements_spec(b, p, i, at_end)->Ok_0.1, at_end) is Err,
    ensures
        elements_spec(b, p, n, at_end) == Err::<(Seq<Seq<char>>, int), Fault>(
            element_spec(b, elements_spec(b, p, i, at_end)->Ok_0.1, at_end)->Err_0,
        ),
    decreases n,
{
    if n > i + 1 {
        lemma_elements_fail(b, p, i, (n - 1) as nat, at_end);
    }
}

/// The decimal notation of `n`, as ASCII bytes.
pub open spec fn dec_bytes(n: nat) -> Seq<u8>
    decreases n,
{
    if n < 10 {
        seq![(48 + n) as u8]
    } else {
        dec_bytes(n / 10).push((48 + n % 10) as u8)
    }
}

/// A header line: the marker, the count in decimal, and CR LF.
pub open spec fn header_line(marker: u8, n: nat) -> Seq<u8> {
    seq![marker] + dec_bytes(n) + seq![13u8, 10u8]
}

/// The bulk string that carries `x`.
pub open spec fn bulk_frame(x: Seq<u8>) -> Seq<u8> {
    header_line(36, x.len()) + x + seq![13u8, 10u8]
}

pub open spec fn bulk_frames(xs: Seq<Seq<u8>>) -> Seq<u8>
    decreases xs.len(),
{
    if xs.len() == 0 {
        Seq::empty()
    } else {
        bulk_frames(xs.drop_last()) + bulk_frame(xs.last())
    }
}

/// The request that carries the arguments `xs`, each as the bytes of its text.
pub open spec fn request_frame(xs: Seq<Seq<u8>>) -> Seq<u8> {
    header_line(42, xs.len()) + bulk_frames(xs)
}

proof fn lemma_dec_bytes(n: nat)
    ensures
        dec_bytes(n).len() > 0,
        all_digits(dec_bytes(n)),
        digits_value(dec_bytes(n)) == n,
    decreases n,
{
    if n >= 10 {
        lemma_dec_bytes(n / 10);
        let s = dec_bytes(n);
        assert(s.drop_last() =~= dec_bytes(n / 10));
        assert(all_digits(s)) by {
            assert forall|i: int| 0 <= i < s.len() implies is_digit(#[trigger] s[i]) by {
                if i < s.len() - 1 {
                    assert(s[i] == dec_bytes(n / 10)[i]);
                }
            }
        }
        assert((n / 10) * 10 + n % 10 == n);
        assert(s.last() == (48 + n % 10) as u8);
        assert(s.last() - 48 == n % 10);
        assert(digits_value(s) == digits_value(s.drop_last()) * 10 + (s.last() - 48) as nat);
        assert(digits_value(s) == n);
    } else {
        let s = dec_bytes(n);
        assert(s.drop_last() =~= Seq::<u8>::empty());
        assert(s.last() - 48 == n);
        assert(digits_value(s.drop_last()) == 0);
    }
}

proof fn lemma_newline_at(b: Seq<u8>, i: int, j: int)
    requires
        0 <= i <= j < b.len(),
        b[j] == LF,
        forall|k: int| i <= k < j ==> b[k] != LF,
    ensures
        newline_from(b, i) == Some(j),
    decreases j - i,
{
    if i < j {
        lemma_newline_at(b, i + 1, j);
    }
}

proof fn lemma_header_line(b: Seq<u8>, p: int, kind: HeaderKind, n: nat, at_end: bool)
    requires
        0 <= p,
        n <= usize::MAX,
        p + dec_bytes(n).len() + 3 <= b.len(),
        b.subrange(p, p + dec_bytes(n).len() + 3) == header_line(marker_byte(kind), n),
    ensures
        header_spec(b, p, kind, at_end) == Ok::<(nat, int), Fault>(
            (n, p + dec_bytes(n).len() + 3),
        ),
{
    let dec = dec_bytes(n);
    let d = dec.len() as int;
    let line = header_line(marker_byte(kind), n);
    lemma_dec_bytes(n);
    assert forall|k: int| 0 <= k < d + 3 implies b[p + k] == line[k] by {
        assert(b.subrange(p, p + d + 3)[k] == b[p + k]);
    }
    assert forall|k: int| p <= k < p + d + 2 implies b[k] != LF by {
        assert(b[p + (k - p)] == line[k - p]);
        if k > p && k < p + d + 1 {
            assert(line[k - p] == dec[k - p - 1]);
            assert(is_digit(dec[k - p - 1]));
        }
    }
    assert(b[p + d + 2] == line[d + 2]);
    lemma_newline_at(b, p, p + d + 2);
    assert(b[p] == line[0]);
    assert(b[p + d + 1] == line[d + 1]);
    assert(b.subrange(p + 1, p + d + 1) =~= dec) by {
        assert forall|k: int| 0 <= k < d implies b.subrange(p + 1, p + d + 1)[k] == dec[k] by {
            assert(b[p + (1 + k)] == line[1 + k]);
        }
    }
}

proof fn lemma_bulk_frame(b: Seq<u8>, p: int, x: Seq<u8>, at_end: bool)
    requires
        0 <= p,
        x.len() <= usize::MAX,
        valid_utf8(x),
        p + bulk_frame(x).len() <= b.len(),
        b.subrange(p, p + bulk_frame(x).len()) == bulk_frame(x),
    ensures
        bulk_spec(b, p, at_end) == Ok::<(Seq<char>, int), Fault>(
            (decode_utf8(x), p + bulk_frame(x).len()),
        ),
{
    let f = bulk_frame(x);
    let h = header_line(36, x.len());
    let hl = h.len() as int;
    assert(b.subrange(p, p + hl) =~= f.subrange(0, hl));
    assert(f.subrange(0, hl) =~= h);
    lemma_header_line(b, p, HeaderKind::Bulk, x.len(), at_end);
    assert(hl == dec_bytes(x.len()).len() + 3);
    assert(b.subrange(p + hl, p + hl + x.len()) =~= f.subrange(hl, hl + x.len()));
    assert(f.subrange(hl, hl + x.len()) =~= x);
}

proof fn lemma_bulk_frames(b: Seq<u8>, p: int, xs: Seq<Seq<u8>>, at_end: bool)
    requires
        0 <= p,
        forall|i: int| 0 <= i < xs.len() ==> (#[trigger] xs[i]).len() <= usize::MAX && valid_utf8(xs[i]),
        p + bulk_frames(xs).len() <= b.len(),
        b.subrange(p, p + bulk_frames(xs).len()) == bulk_frames(xs),
    ensures
        elements_spec(b, p, xs.len(), at_end) == Ok::<(Seq<Seq<char>>, int), Fault>(
            (xs.map_values(|x: Seq<u8>| decode_utf8(x)), p + bulk_frames(xs).len()),
        ),
    decreases xs.len(),
{
    if xs.len() == 0 {
        assert(xs.map_values(|x: Seq<u8>| decode_utf8(x)) =~= Seq::<Seq<char>>::empty());
    } else {
        let ys = xs.drop_last();
        let fy = bulk_frames(ys);
        let fl = bulk_frame(xs.last());
        let all = bulk_frames(xs);
        assert(all == fy + fl);
        assert(b.subrange(p, p + fy.len()) =~= all.subrange(0, fy.len() as int));
        assert(all.subrange(0, fy.len() as int) =~= fy);
        lemma_bulk_frames(b, p, ys, at_end);
        let q = p + fy.len();
        assert(b.subrange(q, q + fl.len()) =~= all.subrange(fy.len() as int, all.len() as int));
        assert(all.subrange(fy.len() as int, all.len() as int) =~= fl);
        assert(xs[xs.len() - 1] == xs.last());
        lemma_bulk_frame(b, q, xs.last(), at_end);
        assert(xs.map_values(|x: Seq<u8>| decode_utf8(x)) =~= ys.map_values(
            |x: Seq<u8>| decode_utf8(x),
        ).push(decode_utf8(xs.last())));
    }
}

/// Framing never looks inside a payload: a request that carries any texts,
/// whatever bytes they hold (markers, length headers, CR or LF among them),
/// decodes to exactly those texts, and spans exactly the request's bytes,
/// whatever follows it.
pub proof fn framing_round_trip(xs: Seq<Seq<u8>>, rest: Seq<u8>, at_end: bool)
    requires
        xs.len() <= usize::MAX,
        forall|i: int| 0 <= i < xs.len() ==> (#[trigger] xs[i]).len() <= usize::MAX && valid_utf8(xs[i]),
    ensures
        command_spec(request_frame(xs) + rest, at_end) == Ok::<(Seq<Seq<char>>, int), Fault>(
            (xs.map_values(|x: Seq<u8>| decode_utf8(x)), request_frame(xs).len() as int),
        ),
{
    let b = request_frame(xs) + rest;
    let h = header_line(42, xs.len());
    let f = bulk_frames(xs);
    assert(b.subrange(0, h.len() as int) =~= h);
    lemma_header_line(b, 0, HeaderKind::Array, xs.len(), at_end);
    assert(b.subrange(h.len() as int, (h.len() + f.len()) as int) =~= f);
    lemma_bulk_frames(b, h.len() as int, xs, at_end);
}

/// Framing never looks inside a payload: a bulk string that carries any text,
/// whatever bytes it holds, decodes to exactly that text, wherever it stands in
/// the input and whatever follows it, and ends just past its own bytes.
pub proof fn bulk_round_trip(before: Seq<u8>, x: Seq<u8>, rest: Seq<u8>, at_end: bool)
    requires
        x.len() <= usize::MAX,
        valid_utf8(x),
    ensures
        bulk_spec(before + bulk_frame(x) + rest, before.len() as int, at_end) == Ok::<
            (Seq<char>, int),
            Fault,
        >((decode_utf8(x), (before.len() + bulk_frame(x).len()) as int)),
{
    let b = before + bulk_frame(x) + rest;
    let p = before.len() as int;
    assert(b.subrange(p, p + bulk_frame(x).len()) =~= bulk_frame(x));
    lemma_bulk_frame(b, p, x, at_end);
}

/// A stream that ends before its first byte is reported as closed, not as a
/// protocol error.
pub proof fn closed_stream_is_closed()
    ensures
        command_spec(Seq::empty(), true) == Err::<(Seq<Seq<char>>, int), Fault>(Fault::Closed),
{
}

} // verus!
