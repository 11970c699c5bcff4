//! A frame of the Redis protocol (RESP2) and the parser that reads one from
//! the front of a byte buffer.

use vstd::prelude::*;

use crate::utils::numeric::{atoi_i64, spec_atoi};
use crate::utils::utf8_to_string;

verus! {

broadcast use vstd::std_specs::vec::axiom_vec_decreases_to_view;

/// A frame in the Redis protocol.
#[derive(Debug, PartialEq, Eq)]
pub enum Frame {
    Simple(String),
    Error(String),
    Integer(i64),
    Bulk(Vec<u8>),
    Null,
    Array(Vec<Frame>),
}

/// What a frame holds, as mathematical values.
pub enum FrameView {
    Simple(Seq<char>),
    Error(Seq<char>),
    Integer(i64),
    Bulk(Seq<u8>),
    Null,
    Array(Seq<FrameView>),
}

impl Frame {
    pub open spec fn spec_view(self) -> FrameView
        decreases self,
    {
        match self {
            Frame::Simple(s) => FrameView::Simple(s@),
            Frame::Error(s) => FrameView::Error(s@),
            Frame::Integer(i) => FrameView::Integer(i),
            Frame::Bulk(b) => FrameView::Bulk(b@),
            Frame::Null => FrameView::Null,
            Frame::Array(v) => FrameView::Array(frames_view(v@)),
        }
    }
}

/// The views of a sequence of frames, element by element.
pub open spec fn frames_view(s: Seq<Frame>) -> Seq<FrameView>
    decreases s,
{
    if s.len() == 0 {
        Seq::empty()
    } else {
        frames_view(s.drop_last()).push(s.last().spec_view())
    }
}

impl View for Frame {
    type V = FrameView;

    open spec fn view(&self) -> FrameView {
        self.spec_view()
    }
}

/// Why a frame could not be read.
pub enum Error {
    /// Not enough data is available to parse a message.
    Incomplete,
    /// Invalid message encoding.
    Other(String),
}

impl Error {
    /// The text that describes the error.
    pub fn message(&self) -> (r: String)
        ensures
            match self {
                Error::Incomplete => r@ == "stream ended early"@,
                Error::Other(e) => r@ == e@,
            },
    {
        match self {
            Error::Incomplete => "stream ended early".to_string(),
            Error::Other(e) => e.clone(),
        }
    }
}

impl From<String> for Error {
    fn from(src: String) -> (r: Error) {
        Error::Other(src)
    }
}

impl vstd::std_specs::convert::FromSpecImpl<String> for Error {
    open spec fn obeys_from_spec() -> bool {
        true
    }

    open spec fn from_spec(src: String) -> Error {
        Error::Other(src)
    }
}

impl Frame {
    /// Whether a simple string or a bulk frame holds the text `other`.
    pub fn eq_str(&self, other: &str) -> (r: bool)
        ensures
            r == match self@ {
                FrameView::Simple(s) => s == other@,
                FrameView::Bulk(b) => b == vstd::utf8::encode_utf8(other@),
                _ => false,
            },
    {
        match self {
            Frame::Simple(s) => s.eq(&other.to_string()),
            Frame::Bulk(b) => crate::utils::bytes::bytes_eq(b.as_slice(), other.as_bytes()),
            _ => false,
        }
    }
}



/// How many bytes at the start of `s` belong to the current line, that is
/// come before the first `\r` or `\n`.
pub open spec fn line_len(s: Seq<u8>) -> nat
    decreases s.len(),
{
    if s.len() > 0 && s[0] != 13 && s[0] != 10 {
        1 + line_len(s.drop_first())
    } else {
        0
    }
}

/// `s` holds `\r\n` at position `p`.
pub open spec fn crlf_at(s: Seq<u8>, p: int) -> bool {
    0 <= p && p + 2 <= s.len() && s[p] == 13 && s[p + 1] == 10
}

/// The outcome of reading one frame from the front of a buffer.
pub enum Parsed {
    /// A frame, and how many bytes it took.
    Done { frame: FrameView, used: nat },
    /// The buffer does not start with a complete frame.
    Mismatch,
    /// The buffer starts with a frame whose text is not UTF-8 or whose number
    /// cannot be read.
    Malformed,
}

/// The outcome of reading several frames one after the other.
pub enum ParsedItems {
    Done { frames: Seq<FrameView>, used: nat },
    Mismatch,
    Malformed,
}

/// The number in a `:`, `$` or `*` header line, with the header's length.
pub enum Header {
    Num { value: i64, len: nat },
    Mismatch,
    Malformed,
}

/// A `+` (simple string) or `-` (error) line. An error line may not be empty.
pub open spec fn spec_parse_text(s: Seq<u8>, is_error: bool) -> Parsed {
    let l = line_len(s.skip(1));
    let body = s.subrange(1, 1 + l as int);
    if is_error && l == 0 {
        Parsed::Mismatch
    } else if !crlf_at(s, 1 + l as int) {
        Parsed::Mismatch
    } else if !vstd::utf8::valid_utf8(body) {
        Parsed::Malformed
    } else {
        let text = vstd::utf8::decode_utf8(body);
        Parsed::Done {
            frame: if is_error { FrameView::Error(text) } else { FrameView::Simple(text) },
            used: l + 3,
        }
    }
}

/// A header line: one tag byte, a non-empty field, `\r\n`. The field is read
/// as a number before the line end is checked.
pub open spec fn spec_header(s: Seq<u8>) -> Header {
    let l = line_len(s.skip(1));
    if l == 0 {
        Header::Mismatch
    } else {
        match spec_atoi(s.subrange(1, 1 + l as int)) {
            None => Header::Malformed,
            Some(v) => if crlf_at(s, 1 + l as int) {
                Header::Num { value: v, len: l + 3 }
            } else {
                Header::Mismatch
            },
        }
    }
}

/// The frame at the front of `s`, as the protocol defines it.
pub open spec fn spec_parse(s: Seq<u8>) -> Parsed
    decreases s.len(), 0nat, 0nat,
{
    if s.len() == 0 {
        Parsed::Mismatch
    } else if s[0] == 43 {
        spec_parse_text(s, false)
    } else if s[0] == 45 {
        spec_parse_text(s, true)
    } else if s[0] == 58 || s[0] == 36 || s[0] == 42 {
        match spec_header(s) {
            Header::Mismatch => Parsed::Mismatch,
            Header::Malformed => Parsed::Malformed,
            Header::Num { value, len } => {
                if s[0] == 58 {
                    Parsed::Done { frame: FrameView::Integer(value), used: len }
                } else if value < 0 {
                    Parsed::Done { frame: FrameView::Null, used: len }
                } else if s[0] == 36 {
                    let end = len + value;
                    if end <= s.len() && crlf_at(s, end) {
                        Parsed::Done {
                            frame: FrameView::Bulk(s.subrange(len as int, end)),
                            used: (end + 2) as nat,
                        }
                    } else {
                        Parsed::Mismatch
                    }
                } else {
                    match spec_parse_items(s.skip(len as int), value as nat) {
                        ParsedItems::Done { frames, used } => Parsed::Done {
                            frame: FrameView::Array(frames),
                            used: len + used,
                        },
                        ParsedItems::Mismatch => Parsed::Mismatch,
                        ParsedItems::Malformed => Parsed::Malformed,
                    }
                }
            },
        }
    } else {
        Parsed::Mismatch
    }
}

/// `count` frames read one after the other from the front of `s`.
pub open spec fn spec_parse_items(s: Seq<u8>, count: nat) -> ParsedItems
    decreases s.len(), 1nat, count,
{
    if count == 0 {
        ParsedItems::Done { frames: Seq::empty(), used: 0 }
    } else {
        match spec_parse(s) {
            Parsed::Done { frame, used } => {
                if 0 < used <= s.len() {
                    match spec_parse_items(s.skip(used as int), (count - 1) as nat) {
                        ParsedItems::Done { frames, used: more } => ParsedItems::Done {
                            frames: seq![frame] + frames,
                            used: used + more,
                        },
                        ParsedItems::Mismatch => ParsedItems::Mismatch,
                        ParsedItems::Malformed => ParsedItems::Malformed,
                    }
                } else {
                    ParsedItems::Mismatch
                }
            },
            Parsed::Mismatch => ParsedItems::Mismatch,
            Parsed::Malformed => ParsedItems::Malformed,
        }
    }
}


/// Why no frame could be read.
#[derive(Debug)]
pub enum ParseError {
    /// The buffer does not start with a complete frame.
    Mismatch,
    /// The buffer starts with a frame whose text is not UTF-8 or whose length
    /// or number field holds no number.
    Malformed,
}

/// Prepends frames already read, and the bytes they took, to the outcome of
/// reading the rest.
pub open spec fn prepend_items(fs: Seq<FrameView>, used: nat, r: ParsedItems) -> ParsedItems {
    match r {
        ParsedItems::Done { frames, used: more } => ParsedItems::Done {
            frames: fs + frames,
            used: used + more,
        },
        other => other,
    }
}

/// `r` is the executable form of the outcome `p`.
pub open spec fn result_matches(r: Result<(usize, Frame), ParseError>, p: Parsed) -> bool {
    match r {
        Ok((used, frame)) => p == Parsed::Done { frame: frame@, used: used as nat },
        Err(ParseError::Mismatch) => p is Mismatch,
        Err(ParseError::Malformed) => p is Malformed,
    }
}

/// Where the line that starts at `start` ends.
fn line_end(s: &[u8], start: usize) -> (r: usize)
    requires
        start <= s@.len(),
    ensures
        start <= r <= s@.len(),
        r - start == line_len(s@.skip(start as int)),
{
    let mut i = start;
    while i < s.len() && s[i] != 13 && s[i] != 10
        invariant
            start <= i <= s@.len(),
            line_len(s@.skip(start as int)) == (i - start) + line_len(s@.skip(i as int)),
        decreases s@.len() - i,
    {
        proof {
            assert(s@.skip(i as int).drop_first() =~= s@.skip(i + 1));
        }
        i += 1;
    }
    proof {
        if i < s@.len() {
            assert(s@.skip(i as int)[0] == s@[i as int]);
        }
    }
    i
}

/// Whether `s` holds `\r\n` at `p`.
fn crlf(s: &[u8], p: usize) -> (r: bool)
    ensures
        r == crlf_at(s@, p as int),
{
    p < s.len() && s.len() - p >= 2 && s[p] == 13 && s[p + 1] == 10
}

/// A `+` or `-` line.
fn parse_text(s: &[u8], is_error: bool) -> (r: Result<(usize, Frame), ParseError>)
    requires
        s@.len() >= 1,
    ensures
        result_matches(r, spec_parse_text(s@, is_error)),
        r matches Ok((u, _)) ==> 0 < u <= s@.len(),
{
    let e = line_end(s, 1);
    if is_error && e == 1 {
        return Err(ParseError::Mismatch);
    }
    if !crlf(s, e) {
        return Err(ParseError::Mismatch);
    }
    let body = vstd::slice::slice_subrange(s, 1, e);
    match utf8_to_string(body) {
        Err(_) => Err(ParseError::Malformed),
        Ok(text) => {
            let frame = if is_error {
                Frame::Error(text)
            } else {
                Frame::Simple(text)
            };
            proof {
                assert(e + 2 <= s.len());
            }
            Ok((e + 2, frame))
        },
    }
}

/// A `:`, `$` or `*` header line: its number and its length.
fn parse_header(s: &[u8]) -> (r: Result<(i64, usize), ParseError>)
    requires
        s@.len() >= 1,
    ensures
        match r {
            Ok((v, n)) => spec_header(s@) == Header::Num { value: v, len: n as nat },
            Err(ParseError::Mismatch) => spec_header(s@) is Mismatch,
            Err(ParseError::Malformed) => spec_header(s@) is Malformed,
        },
        r matches Ok((_, n)) ==> 3 <= n <= s@.len(),
{
    let e = line_end(s, 1);
    if e == 1 {
        return Err(ParseError::Mismatch);
    }
    match atoi_i64(vstd::slice::slice_subrange(s, 1, e)) {
        None => Err(ParseError::Malformed),
        Some(v) => {
            if crlf(s, e) {
                proof {
                    assert(e + 2 <= s.len());
                }
                Ok((v, e + 2))
            } else {
                Err(ParseError::Mismatch)
            }
        },
    }
}

/// Reads the frame at the front of `s` and how many bytes it took.
fn parse_impl(s: &[u8]) -> (r: Result<(usize, Frame), ParseError>)
    ensures
        result_matches(r, spec_parse(s@)),
        r matches Ok((u, _)) ==> 0 < u <= s@.len(),
    decreases s@.len(), 1nat,
{
    if s.len() == 0 {
        return Err(ParseError::Mismatch);
    }
    let tag = s[0];
    if tag == 43 {
        parse_text(s, false)
    } else if tag == 45 {
        parse_text(s, true)
    } else if tag == 58 || tag == 36 || tag == 42 {
        let (value, len) = match parse_header(s) {
            Ok(h) => h,
            Err(e) => {
                return Err(e);
            },
        };
        if tag == 58 {
            Ok((len, Frame::Integer(value)))
        } else if value < 0 {
            Ok((len, Frame::Null))
        } else if tag == 36 {
            let room = s.len() - len;
            if (value as u64) <= (room as u64) {
                let end = len + value as usize;
                if crlf(s, end) {
                    let data = vstd::slice::slice_to_vec(vstd::slice::slice_subrange(s, len, end));
                    Ok((end + 2, Frame::Bulk(data)))
                } else {
                    Err(ParseError::Mismatch)
                }
            } else {
                Err(ParseError::Mismatch)
            }
        } else {
            parse_array(s, len, value)
        }
    } else {
        Err(ParseError::Mismatch)
    }
}

/// The elements of an array whose header, of length `len`, announced `count`
/// of them.
fn parse_array(s: &[u8], len: usize, count: i64) -> (r: Result<(usize, Frame), ParseError>)
    requires
        3 <= len <= s@.len(),
        count >= 0,
        s@.len() > 0,
        s@[0] == 42,
        spec_header(s@) == (Header::Num { value: count, len: len as nat }),
    ensures
        result_matches(r, spec_parse(s@)),
        r matches Ok((u, _)) ==> 0 < u <= s@.len(),
    decreases s@.len(), 0nat,
{
    let ghost t0 = s@.skip(len as int);
    let mut res: Vec<Frame> = Vec::new();
    let mut pos = len;
    let mut i: i64 = 0;
    proof {
        let r0 = spec_parse_items(t0, count as nat);
        assert(frames_view(res@) =~= Seq::<FrameView>::empty());
        assert(s@.skip(pos as int) =~= t0);
        match r0 {
            ParsedItems::Done { frames, used } => {
                assert(Seq::<FrameView>::empty() + frames =~= frames);
            },
            _ => {},
        }
    }
    while i < count
        invariant
            0 <= i <= count,
            3 <= len <= pos <= s@.len(),
            t0 == s@.skip(len as int),
            spec_parse(s@) == (match spec_parse_items(t0, count as nat) {
                ParsedItems::Done { frames, used } => Parsed::Done {
                    frame: FrameView::Array(frames),
                    used: (len + used) as nat,
                },
                ParsedItems::Mismatch => Parsed::Mismatch,
                ParsedItems::Malformed => Parsed::Malformed,
            }),
            spec_parse_items(t0, count as nat) == prepend_items(
                frames_view(res@),
                (pos - len) as nat,
                spec_parse_items(s@.skip(pos as int), (count - i) as nat),
            ),
        decreases s@.len() - pos,
    {
        let rest = vstd::slice::slice_subrange(s, pos, s.len());
        proof {
            assert(rest@ =~= s@.skip(pos as int));
        }
        match parse_impl(rest) {
            Ok((u, f)) => {
                let ghost old_res = res@;
                let ghost k = (count - i) as nat;
                let ghost tail = spec_parse_items(s@.skip(pos + u), (k - 1) as nat);
                proof {
                    assert(s@.skip(pos as int).skip(u as int) =~= s@.skip(pos + u));
                    assert(spec_parse_items(s@.skip(pos as int), k) == prepend_items(
                        seq![f@],
                        u as nat,
                        tail,
                    ));
                }
                res.push(f);
                proof {
                    assert(res@.drop_last() =~= old_res);
                    assert(frames_view(res@) == frames_view(old_res).push(f@));
                    match tail {
                        ParsedItems::Done { frames, used } => {
                            assert(frames_view(old_res) + (seq![f@] + frames) =~= frames_view(
                                old_res,
                            ).push(f@) + frames);
                        },
                        _ => {},
                    }
                }
                pos = pos + u;
                i = i + 1;
            },
            Err(e) => {
                return Err(e);
            },
        }
    }
    proof {
        assert(frames_view(res@) + Seq::<FrameView>::empty() =~= frames_view(res@));
    }
    Ok((pos, Frame::Array(res)))
}

/// Reads the frame at the front of `i`: the frame and the number of bytes it
/// took, or why there is none.
pub fn parse_frame(i: &[u8]) -> (r: Result<(usize, Frame), ParseError>)
    ensures
        result_matches(r, spec_parse(i@)),
{
    parse_impl(i)
}

/// Reads the frame at the front of `i` and hands back the bytes after it.
///
/// The frame's text must be UTF-8 and its length and number fields must be
/// numbers; `parse_frame` reports a frame that breaks this instead.
pub fn parse(i: &[u8]) -> (r: Result<(&[u8], Frame), ParseError>)
    requires
        !(spec_parse(i@) is Malformed),
    ensures
        match r {
            Ok((rest, frame)) => exists|used: nat|
                spec_parse(i@) == Parsed::Done { frame: frame@, used } && rest@ == i@.skip(
                    used as int,
                ),
            Err(e) => e is Mismatch && spec_parse(i@) is Mismatch,
        },
{
    match parse_impl(i) {
        Ok((used, frame)) => {
            let rest = vstd::slice::slice_subrange(i, used, i.len());
            proof {
                assert(rest@ =~= i@.skip(used as int));
            }
            Ok((rest, frame))
        },
        Err(e) => Err(e),
    }
}

} // verus!
