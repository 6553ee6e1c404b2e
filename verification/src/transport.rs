//! The framing of messages: header lines, an empty line, and a body as long as
//! the `Content-Length` header says.

use crate::text::{
    decimal, find_from, first_index, from_range, is_ascii_digit, lemma_decimal_value,
    lemma_is_first_index, parse_unsigned, to_chars, to_decimal, trim, trim_start, trimmed,
    unsigned_value,
};
use vstd::prelude::*;
use vstd::string::*;
use vstd::utf8::{
    decode_utf8, encode_utf8, encode_utf8_decode_utf8, encode_utf8_valid_utf8, is_ascii_chars,
    is_ascii_chars_encode_utf8, valid_utf8,
};

verus! {

pub const MAX_MESSAGE_LEN: usize = 0x400_0000;

/// Why no message could be read.
#[derive(Debug, Clone, Copy, PartialEq, Eq, Structural)]
pub enum TransportError {
    /// The stream ended in the middle of a header.
    HeaderCutShort,
    /// A header line is not UTF-8.
    InvalidUtf8,
    /// The value of `Content-Length` is no length.
    InvalidContentLength,
    /// The header has no `Content-Length`.
    MissingContentLength,
    /// `Content-Length` exceeds [`MAX_MESSAGE_LEN`].
    MessageTooLong,
    /// The stream ended in the middle of a body.
    BodyCutShort,
}

impl TransportError {
    pub open spec fn text(self) -> Seq<char> {
        match self {
            TransportError::HeaderCutShort => "stream ended in the middle of a message header"@,
            TransportError::InvalidUtf8 => "stream did not contain valid UTF-8"@,
            TransportError::InvalidContentLength => "invalid Content-Length value"@,
            TransportError::MissingContentLength => "missing Content-Length header"@,
            TransportError::MessageTooLong => "Content-Length exceeds maximum message size"@,
            TransportError::BodyCutShort => "failed to fill whole buffer"@,
        }
    }

    /// The error in words.
    pub fn message(self) -> (r: &'static str)
        ensures
            r@ == self.text(),
    {
        match self {
            TransportError::HeaderCutShort => "stream ended in the middle of a message header",
            TransportError::InvalidUtf8 => "stream did not contain valid UTF-8",
            TransportError::InvalidContentLength => "invalid Content-Length value",
            TransportError::MissingContentLength => "missing Content-Length header",
            TransportError::MessageTooLong => "Content-Length exceeds maximum message size",
            TransportError::BodyCutShort => "failed to fill whole buffer",
        }
    }
}

// ---------------------------------------------------------------------------
// Header lines
// ---------------------------------------------------------------------------

/// `core::str::from_utf8`: the text that bytes in valid UTF-8 stand for, and
/// nothing for other bytes.
#[verifier::external_body]
fn utf8_text(bytes: &[u8]) -> (r: Option<&str>)
    ensures
        match r {
            Some(s) => valid_utf8(bytes@) && s@ == decode_utf8(bytes@),
            None => !valid_utf8(bytes@),
        },
{
    core::str::from_utf8(bytes).ok()
}

/// A line without the line breaks that it ends with.
pub open spec fn without_line_end(line: Seq<char>) -> Seq<char>
    decreases line.len(),
{
    if line.len() > 0 && (line.last() == '\r' || line.last() == '\n') {
        without_line_end(line.drop_last())
    } else {
        line
    }
}

/// A character with an upper-case ASCII letter in lower case.
pub open spec fn lower_ascii(c: char) -> char {
    if 'A' <= c && c <= 'Z' {
        (c as u32 + 32) as u32 as char
    } else {
        c
    }
}

/// Whether two texts are the same but for the case of ASCII letters.
pub open spec fn same_ignoring_case(a: Seq<char>, b: Seq<char>) -> bool {
    a.len() == b.len() && forall|i: int|
        0 <= i < a.len() ==> lower_ascii(#[trigger] a[i]) == lower_ascii(b[i])
}

/// The value of a line that is a `Content-Length` header: what stands behind
/// the first colon, without the white space around it.
pub open spec fn content_length_text(line: Seq<char>) -> Option<Seq<char>> {
    let colon = first_index(line, ':');
    if colon < line.len() && same_ignoring_case(line.take(colon), "content-length"@) {
        Some(trimmed(line.skip(colon + 1)))
    } else {
        None
    }
}

/// How far the reading of a header has come: the last `Content-Length`, and
/// whether there was a line at all.
#[derive(Debug, Clone, Copy, PartialEq, Eq, Structural)]
pub struct HeaderState {
    pub content_length: Option<usize>,
    pub saw_any_header_line: bool,
}

/// What follows a header line.
#[derive(Debug, Clone, Copy, PartialEq, Eq, Structural)]
pub enum HeaderStep {
    /// Another header line.
    More,
    /// A body of this length.
    Body(usize),
    /// Nothing: the stream has ended between two messages.
    End,
}

/// What an empty line does: the body follows, as long as the header said.
pub open spec fn header_end(state: HeaderState) -> Result<HeaderStep, TransportError> {
    match state.content_length {
        None => Err(TransportError::MissingContentLength),
        Some(n) => if n > MAX_MESSAGE_LEN {
            Err(TransportError::MessageTooLong)
        } else {
            Ok(HeaderStep::Body(n))
        },
    }
}

/// What a line of a header does, its line end included; no bytes at all say
/// that the stream has ended.
pub open spec fn header_line(state: HeaderState, line: Seq<u8>) -> Result<
    (HeaderState, HeaderStep),
    TransportError,
> {
    if line.len() == 0 {
        if state.saw_any_header_line {
            Err(TransportError::HeaderCutShort)
        } else {
            Ok((state, HeaderStep::End))
        }
    } else if !valid_utf8(line) {
        Err(TransportError::InvalidUtf8)
    } else {
        let text = without_line_end(decode_utf8(line));
        if text.len() == 0 {
            match header_end(state) {
                Ok(step) => Ok((state, step)),
                Err(e) => Err(e),
            }
        } else {
            match content_length_text(text) {
                None => Ok(
                    (HeaderState { saw_any_header_line: true, ..state }, HeaderStep::More),
                ),
                Some(value) => match unsigned_value(value, usize::MAX as nat) {
                    Some(n) => Ok(
                        (
                            HeaderState {
                                content_length: Some(n as usize),
                                saw_any_header_line: true,
                            },
                            HeaderStep::More,
                        ),
                    ),
                    None => Err(TransportError::InvalidContentLength),
                },
            }
        }
    }
}

fn lower_of(c: char) -> (r: u32)
    ensures
        r == lower_ascii(c) as u32,
{
    let u: u32 = c as u32;
    if 'A' <= c && c <= 'Z' {
        u + 32
    } else {
        u
    }
}

/// Whether two texts are the same but for the case of ASCII letters.
pub fn eq_ignoring_case(a: &[char], b: &[char]) -> (r: bool)
    ensures
        r == same_ignoring_case(a@, b@),
{
    if a.len() != b.len() {
        return false;
    }
    let mut i: usize = 0;
    while i < a.len()
        invariant
            i <= a.len(),
            a.len() == b.len(),
            forall|k: int| 0 <= k < i ==> lower_ascii(#[trigger] a@[k]) == lower_ascii(b@[k]),
        decreases a.len() - i,
    {
        if lower_of(a[i]) != lower_of(b[i]) {
            assert(lower_ascii(a@[i as int]) != lower_ascii(b@[i as int]));
            return false;
        }
        proof {
            vstd::utf8::char_u32_cast(lower_ascii(a@[i as int]), lower_ascii(b@[i as int]) as u32);
            vstd::utf8::char_u32_cast(lower_ascii(b@[i as int]), lower_ascii(b@[i as int]) as u32);
        }
        i += 1;
    }
    true
}

/// The value of a `Content-Length` line, given without its line end.
fn content_length_of(line: &[char]) -> (r: Option<String>)
    ensures
        match r {
            Some(value) => content_length_text(line@) == Some(value@),
            None => content_length_text(line@) is None,
        },
{
    assert(line@.skip(0) =~= line@);
    let colon: usize = find_from(line, 0, ':');
    if colon >= line.len() {
        return None;
    }
    let name = vstd::slice::slice_subrange(line, 0, colon);
    assert(name@ =~= line@.take(colon as int));
    let wanted = to_chars("content-length");
    if !eq_ignoring_case(name, wanted.as_slice()) {
        return None;
    }
    let value = from_range(line, colon + 1, line.len());
    assert(value@ =~= line@.skip(colon + 1));
    Some(trim(value.as_str()))
}

impl HeaderState {
    /// The state before the first line of a header.
    pub fn new() -> (r: Self)
        ensures
            r == (HeaderState { content_length: None, saw_any_header_line: false }),
    {
        HeaderState { content_length: None, saw_any_header_line: false }
    }

    /// Takes in one line, its line end included; no bytes at all say that the
    /// stream has ended.
    pub fn line(&mut self, line: &[u8]) -> (r: Result<HeaderStep, TransportError>)
        ensures
            match r {
                Ok(step) => header_line(*old(self), line@) == Ok::<
                    (HeaderState, HeaderStep),
                    TransportError,
                >((*final(self), step)),
                Err(e) => header_line(*old(self), line@) == Err::<
                    (HeaderState, HeaderStep),
                    TransportError,
                >(e),
            },
    {
        if line.len() == 0 {
            return if self.saw_any_header_line {
                Err(TransportError::HeaderCutShort)
            } else {
                Ok(HeaderStep::End)
            };
        }
        let text = match utf8_text(line) {
            Some(text) => text,
            None => {
                return Err(TransportError::InvalidUtf8);
            },
        };
        let chars = to_chars(text);
        let mut end: usize = chars.len();
        assert(chars@.take(end as int) =~= text@);
        while end > 0 && (chars[end - 1] == '\r' || chars[end - 1] == '\n')
            invariant
                end <= chars@.len(),
                without_line_end(text@) == without_line_end(chars@.take(end as int)),
            decreases end,
        {
            assert(chars@.take(end as int).last() == chars@[end - 1]);
            assert(chars@.take(end as int).drop_last() =~= chars@.take(end - 1));
            end -= 1;
        }
        let body = vstd::slice::slice_subrange(chars.as_slice(), 0, end);
        proof {
            assert(body@ =~= chars@.take(end as int));
            if end > 0 {
                assert(chars@.take(end as int).last() == chars@[end - 1]);
            }
            assert(without_line_end(text@) == body@);
        }
        if end == 0 {
            return match self.content_length {
                None => Err(TransportError::MissingContentLength),
                Some(n) => if n > MAX_MESSAGE_LEN {
                    Err(TransportError::MessageTooLong)
                } else {
                    Ok(HeaderStep::Body(n))
                },
            };
        }
        match content_length_of(body) {
            None => {
                self.saw_any_header_line = true;
                Ok(HeaderStep::More)
            },
            Some(value) => match parse_unsigned(value.as_str(), usize::MAX as u64) {
                Some(n) => {
                    self.saw_any_header_line = true;
                    self.content_length = Some(n as usize);
                    Ok(HeaderStep::More)
                },
                None => Err(TransportError::InvalidContentLength),
            },
        }
    }
}

// ---------------------------------------------------------------------------
// Messages
// ---------------------------------------------------------------------------

/// The index behind the line that starts at `pos`: behind its line feed, or the
/// end.
pub open spec fn line_end(bytes: Seq<u8>, pos: int) -> int
    decreases bytes.len() - pos,
{
    if pos >= bytes.len() {
        bytes.len() as int
    } else if bytes[pos] == 10 {
        pos + 1
    } else {
        line_end(bytes, pos + 1)
    }
}

pub proof fn lemma_line_end(bytes: Seq<u8>, pos: int)
    requires
        0 <= pos <= bytes.len(),
    ensures
        pos <= line_end(bytes, pos) <= bytes.len(),
        pos < bytes.len() ==> pos < line_end(bytes, pos),
    decreases bytes.len() - pos,
{
    if pos < bytes.len() && bytes[pos] != 10 {
        lemma_line_end(bytes, pos + 1);
    }
}

/// What reading a message from `pos` on gives, once the header lines before
/// `pos` have led to a state: the body and the index behind it, or nothing at
/// the end of the stream.
pub open spec fn message_from(bytes: Seq<u8>, pos: int, state: HeaderState) -> Result<
    Option<(Seq<u8>, int)>,
    TransportError,
>
    decreases bytes.len() - pos,
{
    proof {
        if 0 <= pos <= bytes.len() {
            lemma_line_end(bytes, pos);
        }
    }
    if !(0 <= pos <= bytes.len()) {
        Err(TransportError::HeaderCutShort)
    } else {
        let end = line_end(bytes, pos);
        match header_line(state, bytes.subrange(pos, end)) {
            Err(e) => Err(e),
            Ok((_, HeaderStep::End)) => Ok(None),
            Ok((_, HeaderStep::Body(n))) => if end + n <= bytes.len() {
                Ok(Some((bytes.subrange(end, end + n), end + n)))
            } else {
                Err(TransportError::BodyCutShort)
            },
            Ok((next, HeaderStep::More)) => if pos < bytes.len() {
                message_from(bytes, end, next)
            } else {
                Err(TransportError::HeaderCutShort)
            },
        }
    }
}

/// The end of the last header line that is read from `pos` on, once the header
/// lines before `pos` have led to a state.
pub open spec fn header_end_from(bytes: Seq<u8>, pos: int, state: HeaderState) -> int
    decreases bytes.len() - pos,
{
    proof {
        if 0 <= pos <= bytes.len() {
            lemma_line_end(bytes, pos);
        }
    }
    if !(0 <= pos < bytes.len()) {
        pos
    } else {
        let end = line_end(bytes, pos);
        match header_line(state, bytes.subrange(pos, end)) {
            Ok((next, HeaderStep::More)) => header_end_from(bytes, end, next),
            _ => end,
        }
    }
}

/// The end of the last header line that is read from `pos` on.
pub open spec fn header_end_at(bytes: Seq<u8>, pos: int) -> int {
    header_end_from(
        bytes,
        pos,
        HeaderState { content_length: None, saw_any_header_line: false },
    )
}

/// What reading a message from `pos` on gives.
pub open spec fn message_at(bytes: Seq<u8>, pos: int) -> Result<
    Option<(Seq<u8>, int)>,
    TransportError,
> {
    message_from(
        bytes,
        pos,
        HeaderState { content_length: None, saw_any_header_line: false },
    )
}

/// Bytes that were received, and how far they have been read.
pub struct ByteReader {
    pub bytes: Vec<u8>,
    pub pos: usize,
}

impl ByteReader {
    pub fn new(bytes: Vec<u8>) -> (r: Self)
        ensures
            r.bytes == bytes,
            r.pos == 0,
    {
        ByteReader { bytes, pos: 0 }
    }
}

fn find_line_end(bytes: &[u8], pos: usize) -> (r: usize)
    requires
        pos <= bytes@.len(),
    ensures
        pos <= r <= bytes@.len(),
        r == line_end(bytes@, pos as int),
        pos < bytes@.len() ==> pos < r,
{
    let mut i: usize = pos;
    while i < bytes.len()
        invariant
            pos <= i <= bytes@.len(),
            line_end(bytes@, pos as int) == line_end(bytes@, i as int),
        decreases bytes@.len() - i,
    {
        if bytes[i] == 10 {
            return i + 1;
        }
        i += 1;
    }
    i
}

/// Reads one message and moves behind it; `None` at the end of the bytes.
pub fn read_message(reader: &mut ByteReader) -> (r: Result<Option<Vec<u8>>, TransportError>)
    requires
        old(reader).pos <= old(reader).bytes@.len(),
    ensures
        final(reader).bytes == old(reader).bytes,
        old(reader).pos <= final(reader).pos <= final(reader).bytes@.len(),
        r is Ok && r->Ok_0 is None ==> final(reader).pos == final(reader).bytes@.len(),
        match r {
            Ok(Some(body)) => message_at(old(reader).bytes@, old(reader).pos as int) == Ok::<
                Option<(Seq<u8>, int)>,
                TransportError,
            >(Some((body@, final(reader).pos as int))),
            Ok(None) => message_at(old(reader).bytes@, old(reader).pos as int) == Ok::<
                Option<(Seq<u8>, int)>,
                TransportError,
            >(None),
            Err(e) => message_at(old(reader).bytes@, old(reader).pos as int) == Err::<
                Option<(Seq<u8>, int)>,
                TransportError,
            >(e) && final(reader).pos == header_end_at(old(reader).bytes@, old(reader).pos as int),
        },
{
    let ghost start = reader.pos as int;
    let ghost bytes = reader.bytes@;
    let mut state = HeaderState::new();
    loop
        invariant
            reader.bytes == old(reader).bytes,
            bytes == old(reader).bytes@,
            start == old(reader).pos,
            start <= reader.pos <= bytes.len(),
            message_at(bytes, start) == message_from(bytes, reader.pos as int, state),
            header_end_at(bytes, start) == header_end_from(bytes, reader.pos as int, state),
        decreases bytes.len() - reader.pos,
    {
        let end: usize = find_line_end(reader.bytes.as_slice(), reader.pos);
        let line = vstd::slice::slice_subrange(reader.bytes.as_slice(), reader.pos, end);
        assert(line@ =~= bytes.subrange(reader.pos as int, end as int));
        reader.pos = end;
        let step = state.line(line)?;
        match step {
            HeaderStep::More => {
                assert(line@.len() > 0);
            },
            HeaderStep::End => {
                return Ok(None);
            },
            HeaderStep::Body(n) => {
                if n > reader.bytes.len() - end {
                    return Err(TransportError::BodyCutShort);
                }
                let total: usize = reader.bytes.len();
                let mut body: Vec<u8> = Vec::new();
                let mut i: usize = 0;
                while i < n
                    invariant
                        i <= n,
                        end + n <= total,
                        total == reader.bytes@.len(),
                        body@ == reader.bytes@.subrange(end as int, end + i),
                    decreases n - i,
                {
                    body.push(reader.bytes[end + i]);
                    i += 1;
                    assert(body@ =~= reader.bytes@.subrange(end as int, end + i));
                }
                reader.pos = end + n;
                return Ok(Some(body));
            },
        }
    }
}

/// The header of a message with a body of a length.
pub open spec fn header_text(len: nat) -> Seq<char> {
    "Content-Length: "@ + decimal(len) + "\r\n\r\n"@
}

/// A message as it is written.
pub open spec fn framed(body: Seq<u8>) -> Seq<u8> {
    encode_utf8(header_text(body.len())) + body
}

/// Writes a message behind what the writer holds.
pub fn write_message(writer: &mut Vec<u8>, body: &[u8])
    ensures
        final(writer)@ == old(writer)@ + framed(body@),
{
    let ghost before = writer@;
    let mut header = String::new();
    header.append("Content-Length: ");
    header.append(to_decimal(body.len() as u64).as_str());
    header.append("\r\n\r\n");
    assert(header@ =~= header_text(body@.len()));
    let bytes = header.as_str().as_bytes();
    let mut i: usize = 0;
    while i < bytes.len()
        invariant
            i <= bytes@.len(),
            writer@ == before + bytes@.take(i as int),
        decreases bytes@.len() - i,
    {
        writer.push(bytes[i]);
        i += 1;
        assert(writer@ =~= before + bytes@.take(i as int));
    }
    assert(bytes@.take(i as int) =~= bytes@);
    let ghost head = writer@;
    let mut j: usize = 0;
    while j < body.len()
        invariant
            j <= body@.len(),
            writer@ == head + body@.take(j as int),
        decreases body@.len() - j,
    {
        writer.push(body[j]);
        j += 1;
        assert(writer@ =~= head + body@.take(j as int));
    }
    assert(body@.take(j as int) =~= body@);
    assert(writer@ =~= before + framed(body@));
}

// ---------------------------------------------------------------------------
// Laws
// ---------------------------------------------------------------------------

proof fn lemma_line_end_is(bytes: Seq<u8>, pos: int, end: int)
    requires
        0 <= pos < end <= bytes.len(),
        bytes[end - 1] == 10,
        forall|i: int| pos <= i < end - 1 ==> bytes[i] != 10,
    ensures
        line_end(bytes, pos) == end,
    decreases end - pos,
{
    if pos < end - 1 {
        lemma_line_end_is(bytes, pos + 1, end);
    }
}

/// A digit string is not touched by trimming.
proof fn lemma_trimmed_digits(s: Seq<char>)
    requires
        s.len() > 0,
        forall|i: int| 0 <= i < s.len() ==> is_ascii_digit(#[trigger] s[i]),
    ensures
        trimmed(seq![' '] + s) == s,
{
    let padded = seq![' '] + s;
    assert(padded[0] == ' ');
    assert(padded.skip(1) =~= s);
    assert(is_ascii_digit(s[0]));
    assert(trim_start(s) == s);
    assert(trim_start(padded) == s);
    assert(is_ascii_digit(s[s.len() - 1]));
}

proof fn lemma_content_length_line(n: nat)
    ensures
        content_length_text("Content-Length: "@ + decimal(n)) == Some(decimal(n)),
        without_line_end("Content-Length: "@ + decimal(n) + "\r\n"@) == "Content-Length: "@
            + decimal(n),
        is_ascii_chars("Content-Length: "@ + decimal(n) + "\r\n"@),
        forall|i: int|
            0 <= i < ("Content-Length: "@ + decimal(n)).len() ==> ("Content-Length: "@ + decimal(
                n,
            ))[i] != '\n',
{
    reveal_strlit("Content-Length: ");
    reveal_strlit("content-length");
    reveal_strlit("\r\n");
    lemma_decimal_value(n);
    let d = decimal(n);
    let head = "Content-Length: "@;
    let line = head + d;
    let wanted = "content-length"@;
    assert(head.len() == 16);
    assert(line[14] == ':');
    assert forall|i: int| 0 <= i < 14 implies line[i] != ':' by {
        assert(line[i] == head[i]);
    }
    lemma_is_first_index(line, ':', 14);
    assert forall|i: int| 0 <= i < 14 implies lower_ascii(#[trigger] line.take(14)[i])
        == lower_ascii(wanted[i]) by {
        assert(line.take(14)[i] == head[i]);
    }
    assert(same_ignoring_case(line.take(14), wanted));
    assert(line.skip(15) =~= seq![' '] + d);
    lemma_trimmed_digits(d);
    let whole = line + "\r\n"@;
    let l = line.len() as int;
    assert(whole.last() == '\n');
    assert(whole.drop_last().last() == '\r');
    assert(whole.drop_last().drop_last() =~= line);
    assert(line.last() == d.last());
    assert(is_ascii_digit(d[d.len() - 1]));
    assert(without_line_end(line) == line);
    assert(without_line_end(whole.drop_last()) == line);
    assert forall|i: int| 0 <= i < line.len() implies line[i] != '\n' && (line[i] as u32) < 128 by {
        if i < 16 {
            assert(line[i] == head[i]);
        } else {
            assert(line[i] == d[i - 16]);
            assert(is_ascii_digit(d[i - 16]));
        }
    }
    assert forall|i: int| 0 <= i < whole.len() implies (whole[i] as u32) < 128 by {
        if i < l {
            assert(whole[i] == line[i]);
        }
    }
}

proof fn lemma_line_end_shifts(before: Seq<u8>, bytes: Seq<u8>, pos: int)
    requires
        0 <= pos <= bytes.len(),
    ensures
        line_end(before + bytes, before.len() + pos) == before.len() + line_end(bytes, pos),
    decreases bytes.len() - pos,
{
    if pos < bytes.len() {
        assert((before + bytes)[before.len() + pos] == bytes[pos]);
        if bytes[pos] != 10 {
            lemma_line_end_shifts(before, bytes, pos + 1);
        }
    }
}

/// What is read does not depend on what came before.
proof fn lemma_message_shifts(before: Seq<u8>, bytes: Seq<u8>, pos: int, state: HeaderState)
    requires
        0 <= pos <= bytes.len(),
    ensures
        message_from(before + bytes, before.len() + pos, state) == match message_from(
            bytes,
            pos,
            state,
        ) {
            Ok(Some((body, end))) => Ok(Some((body, before.len() + end))),
            other => other,
        },
    decreases bytes.len() - pos,
{
    let all = before + bytes;
    let n = before.len() as int;
    let end = line_end(bytes, pos);
    lemma_line_end(bytes, pos);
    lemma_line_end_shifts(before, bytes, pos);
    assert(all.subrange(n + pos, n + end) =~= bytes.subrange(pos, end));
    match header_line(state, bytes.subrange(pos, end)) {
        Ok((_, HeaderStep::Body(len))) => {
            if end + len <= bytes.len() {
                assert(all.subrange(n + end, n + end + len) =~= bytes.subrange(end, end + len));
            }
        },
        Ok((next, HeaderStep::More)) => {
            if pos < bytes.len() {
                lemma_message_shifts(before, bytes, end, next);
            }
        },
        _ => {},
    }
}

/// Reading gives back what was written, whatever came before it and whatever
/// follows it, and stops right behind it: for every body that is not longer
/// than a message may be.
pub proof fn law_read_gives_back_what_was_written(
    before: Seq<u8>,
    body: Seq<u8>,
    rest: Seq<u8>,
)
    requires
        body.len() <= MAX_MESSAGE_LEN,
    ensures
        message_at(before + framed(body) + rest, before.len() as int) == Ok::<
            Option<(Seq<u8>, int)>,
            TransportError,
        >(Some((body, (before.len() + framed(body).len()) as int))),
{
    let first = HeaderState { content_length: None, saw_any_header_line: false };
    lemma_read_at_the_start(body, rest);
    lemma_message_shifts(before, framed(body) + rest, 0, first);
    assert(before + framed(body) + rest =~= before + (framed(body) + rest));
}

/// Messages as they are written one after the other.
pub open spec fn framed_all(bodies: Seq<Seq<u8>>) -> Seq<u8>
    decreases bodies.len(),
{
    if bodies.len() == 0 {
        Seq::empty()
    } else {
        framed_all(bodies.drop_last()) + framed(bodies.last())
    }
}

proof fn lemma_framed_all(bodies: Seq<Seq<u8>>, i: int)
    requires
        0 <= i < bodies.len(),
    ensures
        framed_all(bodies) == framed_all(bodies.take(i)) + framed(bodies[i]) + framed_all(
            bodies.skip(i + 1),
        ),
    decreases bodies.len(),
{
    let last = bodies.len() - 1;
    let rest = bodies.skip(i + 1);
    if i == last {
        assert(bodies.take(i) =~= bodies.drop_last());
        assert(rest =~= Seq::empty());
        assert(framed_all(rest) =~= Seq::empty());
        assert(framed_all(bodies) =~= framed_all(bodies.take(i)) + framed(bodies[i]) + framed_all(
            rest,
        ));
    } else {
        let fewer = bodies.drop_last();
        lemma_framed_all(fewer, i);
        assert(fewer.take(i) =~= bodies.take(i));
        assert(fewer.skip(i + 1) =~= rest.drop_last());
        assert(rest.last() == bodies.last());
        assert(framed_all(bodies) =~= framed_all(bodies.take(i)) + framed(bodies[i]) + framed_all(
            rest,
        ));
    }
}

/// Messages are read in the order in which they were written, each from where
/// the one before it ended, and behind the last there is none.
pub proof fn law_messages_are_read_in_the_order_written(bodies: Seq<Seq<u8>>, i: int)
    requires
        0 <= i <= bodies.len(),
        i < bodies.len() ==> bodies[i].len() <= MAX_MESSAGE_LEN,
    ensures
        message_at(framed_all(bodies), framed_all(bodies.take(i)).len() as int) == Ok::<
            Option<(Seq<u8>, int)>,
            TransportError,
        >(
            if i < bodies.len() {
                Some((bodies[i], framed_all(bodies.take(i + 1)).len() as int))
            } else {
                None
            },
        ),
{
    if i < bodies.len() {
        lemma_framed_all(bodies, i);
        law_read_gives_back_what_was_written(
            framed_all(bodies.take(i)),
            bodies[i],
            framed_all(bodies.skip(i + 1)),
        );
        assert(bodies.take(i + 1).drop_last() =~= bodies.take(i));
    } else {
        assert(bodies.take(i) =~= bodies);
        law_clean_end_is_no_error(framed_all(bodies));
    }
}

proof fn lemma_read_at_the_start(body: Seq<u8>, rest: Seq<u8>)
    requires
        body.len() <= MAX_MESSAGE_LEN,
    ensures
        message_at(framed(body) + rest, 0) == Ok::<Option<(Seq<u8>, int)>, TransportError>(
            Some((body, framed(body).len() as int)),
        ),
{
    reveal_strlit("\r\n");
    reveal_strlit("\r\n\r\n");
    let n = body.len();
    let line = "Content-Length: "@ + decimal(n) + "\r\n"@;
    let header = header_text(n);
    let blank = "\r\n"@;
    lemma_content_length_line(n);
    lemma_decimal_value(n);
    assert(header =~= line + blank);
    crate::text::lemma_encode_add(line, blank);
    let lb = encode_utf8(line);
    let bb = encode_utf8(blank);
    is_ascii_chars_encode_utf8(line);
    assert(is_ascii_chars(blank));
    is_ascii_chars_encode_utf8(blank);
    let all = framed(body) + rest;
    assert(all =~= lb + bb + body + rest);
    assert(lb.len() == line.len() && bb.len() == 2);
    let l = line.len() as int;
    assert(forall|i: int| 0 <= i < l ==> all[i] == lb[i]);
    assert(all[l] == bb[0] && all[l + 1] == bb[1]);
    let head = "Content-Length: "@ + decimal(n);
    assert(head.len() == l - 2);
    assert forall|i: int| 0 <= i < l - 1 implies all[i] != 10 by {
        assert(all[i] == lb[i]);
        assert(lb[i] == line[i] as u8);
        if i < l - 2 {
            assert(line[i] == head[i]);
        } else {
            assert(line[i] == '\r');
        }
    }
    assert(all[l - 1] == 10) by {
        assert(all[l - 1] == lb[l - 1]);
        assert(line[l - 1] == '\n');
    }
    lemma_line_end_is(all, 0, l);
    lemma_line_end_is(all, l, l + 2);
    assert(all.subrange(0, l) =~= lb);
    assert(all.subrange(l, l + 2) =~= bb);
    encode_utf8_valid_utf8(line);
    encode_utf8_decode_utf8(line);
    encode_utf8_valid_utf8(blank);
    encode_utf8_decode_utf8(blank);
    let first = HeaderState { content_length: None, saw_any_header_line: false };
    let second = HeaderState { content_length: Some(n as usize), saw_any_header_line: true };
    assert(decimal(n)[0] != '+') by {
        assert(is_ascii_digit(decimal(n)[0]));
    }
    assert(unsigned_value(decimal(n), usize::MAX as nat) == Some(n));
    assert(head.len() > 0);
    assert(header_line(first, lb) == Ok::<(HeaderState, HeaderStep), TransportError>(
        (second, HeaderStep::More),
    ));
    assert(blank.drop_last().drop_last() =~= Seq::empty());
    assert(without_line_end(blank.drop_last().drop_last()) == Seq::<char>::empty());
    assert(without_line_end(blank.drop_last()) == Seq::<char>::empty());
    assert(without_line_end(blank) == Seq::<char>::empty());
    assert(header_line(second, bb) == Ok::<(HeaderState, HeaderStep), TransportError>(
        (second, HeaderStep::Body(n as usize)),
    ));
    assert(all.subrange(l + 2, l + 2 + n) =~= body);
    assert(message_from(all, l, second) == Ok::<Option<(Seq<u8>, int)>, TransportError>(
        Some((body, l + 2 + n)),
    ));
}

/// At the end of the stream, between two messages, there is no message and no
/// error.
pub proof fn law_clean_end_is_no_error(bytes: Seq<u8>)
    ensures
        message_at(bytes, bytes.len() as int) == Ok::<Option<(Seq<u8>, int)>, TransportError>(None),
{
    let n = bytes.len() as int;
    assert(bytes.subrange(n, n) =~= Seq::empty());
}

/// Whether a text is `content-length` in letters of either case.
pub open spec fn is_length_name(name: Seq<char>) -> bool {
    name.len() == 14 && forall|i: int|
        0 <= i < 14 ==> #[trigger] name[i] == "content-length"@[i] || name[i]
            == "CONTENT-LENGTH"@[i]
}

/// The header that says how long the body is may be written in letters of either
/// case, and the last one counts; any other header says nothing.
pub proof fn law_the_length_is_said_in_any_case(
    state: HeaderState,
    name: Seq<char>,
    other: Seq<char>,
    value: Seq<char>,
    n: nat,
)
    requires
        is_length_name(name),
        n <= usize::MAX,
        !other.contains(':'),
        other.len() != 14,
        value.len() > 0 ==> value.last() != '\r' && value.last() != '\n',
    ensures
        ({
            let line = name + seq![':', ' '] + decimal(n) + seq!['\r', '\n'];
            header_line(state, encode_utf8(line)) == Ok::<
                (HeaderState, HeaderStep),
                TransportError,
            >(
                (
                    HeaderState { content_length: Some(n as usize), saw_any_header_line: true },
                    HeaderStep::More,
                ),
            )
        }),
        ({
            let line = other + seq![':'] + value + seq!['\r', '\n'];
            header_line(state, encode_utf8(line)) == Ok::<
                (HeaderState, HeaderStep),
                TransportError,
            >(
                (
                    HeaderState {
                        content_length: state.content_length,
                        saw_any_header_line: true,
                    },
                    HeaderStep::More,
                ),
            )
        }),
{
    reveal_strlit("content-length");
    reveal_strlit("CONTENT-LENGTH");
    let d = decimal(n);
    lemma_decimal_value(n);
    let text = name + seq![':', ' '] + d;
    let line = text + seq!['\r', '\n'];
    assert(line =~= name + seq![':', ' '] + d + seq!['\r', '\n']);
    assert(text.last() == d.last());
    assert(is_ascii_digit(d[d.len() - 1]));
    lemma_line_is(text);
    assert forall|k: int| 0 <= k < 14 implies text[k] != ':' by {
        assert(text[k] == name[k]);
        assert("content-length"@[k] != ':' && "CONTENT-LENGTH"@[k] != ':');
    }
    assert(text[14] == ':');
    lemma_is_first_index(text, ':', 14);
    assert(text.take(14) =~= name);
    assert(same_ignoring_case(name, "content-length"@)) by {
        assert forall|i: int| 0 <= i < name.len() implies lower_ascii(#[trigger] name[i])
            == lower_ascii("content-length"@[i]) by {
            lemma_cases(i);
        }
    }
    assert(text.skip(15) =~= seq![' '] + d);
    lemma_trimmed_number(d);
    assert(unsigned_value(d, usize::MAX as nat) == Some(n)) by {
        assert(is_ascii_digit(d[0]));
    }
    let noise = other + seq![':'] + value;
    let noise_line = noise + seq!['\r', '\n'];
    assert(noise_line =~= other + seq![':'] + value + seq!['\r', '\n']);
    assert(noise.last() == if value.len() > 0 { value.last() } else { ':' });
    lemma_line_is(noise);
    let at = other.len() as int;
    assert(noise[at] == ':');
    assert forall|k: int| 0 <= k < at implies noise[k] != ':' by {
        assert(noise[k] == other[k]);
        assert(other.contains(other[k]));
    }
    lemma_is_first_index(noise, ':', at);
    assert(noise.take(at) =~= other);
    assert(!same_ignoring_case(other, "content-length"@));
}

proof fn lemma_cases(i: int)
    requires
        0 <= i < 14,
    ensures
        lower_ascii("content-length"@[i]) == lower_ascii("CONTENT-LENGTH"@[i]),
{
    reveal_strlit("content-length");
    reveal_strlit("CONTENT-LENGTH");
    let (a, b) = ("content-length"@[i], "CONTENT-LENGTH"@[i]);
    if a != b {
        assert(b as u32 + 32 == a as u32);
        assert('A' <= b && b <= 'Z');
        vstd::utf8::char_u32_cast(a, a as u32);
    }
}

proof fn lemma_trimmed_number(d: Seq<char>)
    requires
        d.len() > 0,
        forall|i: int| 0 <= i < d.len() ==> is_ascii_digit(#[trigger] d[i]),
    ensures
        trimmed(seq![' '] + d) == d,
{
    let s = seq![' '] + d;
    assert(s.skip(1) =~= d);
    assert(is_ascii_digit(d[0]) && is_ascii_digit(d[d.len() - 1]));
    assert(d[d.len() - 1] == d.last());
    assert(crate::text::trim_start(d) == d);
    assert(crate::text::trim_start(s) == d);
}

/// What a line says is its text without the line end.
proof fn lemma_line_is(text: Seq<char>)
    requires
        text.len() > 0,
        text.last() != '\r' && text.last() != '\n',
    ensures
        ({
            let line = text + seq!['\r', '\n'];
            &&& encode_utf8(line).len() > 0
            &&& valid_utf8(encode_utf8(line))
            &&& without_line_end(decode_utf8(encode_utf8(line))) == text
        }),
{
    let line = text + seq!['\r', '\n'];
    encode_utf8_valid_utf8(line);
    encode_utf8_decode_utf8(line);
    assert(line.drop_last() =~= text + seq!['\r']);
    assert(line.drop_last().drop_last() =~= text);
    assert(without_line_end(text) == text);
    assert(without_line_end(line.drop_last()) == text);
    assert(without_line_end(line) == text);
    if encode_utf8(line).len() == 0 {
        assert(decode_utf8(encode_utf8(line)) =~= Seq::empty());
    }
}

/// An empty line ends the header: a body of the length that was said follows, at
/// most 64 MiB long; without a length, or with a longer one, there is no
/// message.
pub proof fn law_an_empty_line_ends_the_header(state: HeaderState)
    ensures
        state.content_length is None ==> header_line(state, seq![13u8, 10u8]) == Err::<
            (HeaderState, HeaderStep),
            TransportError,
        >(TransportError::MissingContentLength),
        state.content_length is Some && state.content_length->0 > 64 * 1024 * 1024 ==> header_line(
            state,
            seq![13u8, 10u8],
        ) == Err::<(HeaderState, HeaderStep), TransportError>(TransportError::MessageTooLong),
        state.content_length is Some && state.content_length->0 <= 64 * 1024 * 1024 ==> header_line(
            state,
            seq![13u8, 10u8],
        ) == Ok::<(HeaderState, HeaderStep), TransportError>(
            (state, HeaderStep::Body(state.content_length->0)),
        ),
        header_line(state, Seq::empty()) == if state.saw_any_header_line {
            Err::<(HeaderState, HeaderStep), TransportError>(TransportError::HeaderCutShort)
        } else {
            Ok::<(HeaderState, HeaderStep), TransportError>((state, HeaderStep::End))
        },
{
    let blank = seq!['\r', '\n'];
    assert(is_ascii_chars(blank));
    is_ascii_chars_encode_utf8(blank);
    assert(encode_utf8(blank) =~= seq![13u8, 10u8]);
    encode_utf8_valid_utf8(blank);
    encode_utf8_decode_utf8(blank);
    assert(blank.drop_last().drop_last() =~= Seq::empty());
    assert(without_line_end(blank.drop_last().drop_last()) == Seq::<char>::empty());
    assert(without_line_end(blank.drop_last()) == Seq::<char>::empty());
    assert(without_line_end(blank) == Seq::<char>::empty());
}

} // verus!
