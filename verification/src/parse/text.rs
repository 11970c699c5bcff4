//! How a frame reads when it is printed.

use vstd::prelude::*;
use vstd::string::StringExecFns;

use super::frame::{frames_view, Frame, FrameView};
use super::roundtrip::lemma_decimal;
use super::to_bytes::{signed_decimal, signed_decimal_bytes};
use crate::utils::utf8_to_string;

verus! {

broadcast use vstd::std_specs::vec::axiom_vec_decreases_to_view;

/// The hexadecimal digit of `d`, which is below 16, in lower case.
pub open spec fn hex_digit(d: u8) -> char {
    if d < 10 {
        (48 + d) as char
    } else {
        (87 + d) as char
    }
}

/// How the `Debug` form of `bytes::Bytes` writes one byte: the escapes
/// `\n`, `\r`, `\t`, `\\`, `\"` and `\0`, printable ASCII as it is, and
/// `\x` with two hexadecimal digits for anything else.
pub open spec fn debug_byte(b: u8) -> Seq<char> {
    if b == 10 {
        seq!['\\', 'n']
    } else if b == 13 {
        seq!['\\', 'r']
    } else if b == 9 {
        seq!['\\', 't']
    } else if b == 92 || b == 34 {
        seq!['\\', b as char]
    } else if b == 0 {
        seq!['\\', '0']
    } else if 0x20 <= b < 0x7f {
        seq![b as char]
    } else {
        seq!['\\', 'x', hex_digit(b / 16), hex_digit(b % 16)]
    }
}

/// The bytes `b`, each written as `debug_byte` says.
pub open spec fn debug_bytes_body(b: Seq<u8>) -> Seq<char>
    decreases b.len(),
{
    if b.len() == 0 {
        Seq::empty()
    } else {
        debug_bytes_body(b.drop_last()) + debug_byte(b.last())
    }
}

/// The `Debug` form of `bytes::Bytes` holding `b`: `b"`, the escaped
/// bytes, `"`.
pub open spec fn bytes_debug_text(b: Seq<u8>) -> Seq<char> {
    seq!['b', '"'] + debug_bytes_body(b) + seq!['"']
}

/// Calls `format!("{:?}", bytes::Bytes::copy_from_slice(b))`. The `Debug`
/// impl of `bytes::Bytes` writes `b"`, then every byte escaped as
/// `debug_byte` describes, then `"`; this wrapper claims exactly that.
#[verifier::external_body]
fn bytes_debug(b: &[u8]) -> (r: String)
    ensures
        r@ == bytes_debug_text(b@),
{
    format!("{:?}", bytes::Bytes::copy_from_slice(b))
}

/// The text of a frame: a simple string as it is, an error after
/// `error: `, an integer in decimal, bulk bytes as the text they encode
/// when they are UTF-8 and in their escaped form otherwise, `(nil)` for
/// null. An array writes each of its parts after the first, each after a
/// space.
pub open spec fn frame_text(f: FrameView) -> Seq<char>
    decreases f,
{
    match f {
        FrameView::Simple(s) => s,
        FrameView::Error(m) => "error: "@ + m,
        FrameView::Integer(n) => vstd::utf8::decode_utf8(signed_decimal(n as int)),
        FrameView::Bulk(b) => if vstd::utf8::valid_utf8(b) {
            vstd::utf8::decode_utf8(b)
        } else {
            bytes_debug_text(b)
        },
        FrameView::Null => "(nil)"@,
        FrameView::Array(parts) => parts_text(parts),
    }
}

/// The parts of an array after the first, each after a space.
pub open spec fn parts_text(s: Seq<FrameView>) -> Seq<char>
    decreases s,
{
    if s.len() <= 1 {
        Seq::empty()
    } else {
        parts_text(s.drop_last()) + " "@ + frame_text(s.last())
    }
}

/// The decimal form of an integer is ASCII, hence UTF-8.
proof fn lemma_signed_decimal_utf8(i: int)
    ensures
        vstd::utf8::valid_utf8(signed_decimal(i)),
{
    let n: nat = if i < 0 { (-i) as nat } else { i as nat };
    lemma_decimal(n);
    let s = signed_decimal(i);
    assert forall|j: int| 0 <= j < s.len() implies #[trigger] vstd::utf8::is_leading_byte_width_1(s[j]) by {
        if i < 0 {
            if j > 0 {
                assert(s[j] == crate::parse::to_bytes::decimal(n)[j - 1]);
            }
        }
    }
    assert(s.subrange(0, 0) =~= Seq::<u8>::empty());
    vstd::utf8::partial_valid_utf8_extend_ascii_block(s, 0, s.len() as int);
    assert(s.subrange(0, s.len() as int) =~= s);
}

/// The text of the integer `n`.
fn integer_text(n: i64) -> (r: String)
    ensures
        r@ == vstd::utf8::decode_utf8(signed_decimal(n as int)),
{
    let digits = signed_decimal_bytes(n);
    match utf8_to_string(digits.as_slice()) {
        Ok(s) => s,
        Err(_) => {
            proof {
                lemma_signed_decimal_utf8(n as int);
            }
            String::new()
        },
    }
}

impl Frame {
    /// The text of this frame; see `frame_text`.
    pub fn to_string(&self) -> (r: String)
        ensures
            r@ == frame_text(self@),
        decreases self,
    {
        match self {
            Frame::Simple(s) => s.clone(),
            Frame::Error(m) => {
                let mut out = "error: ".to_string();
                out.append(m.as_str());
                out
            },
            Frame::Integer(n) => integer_text(*n),
            Frame::Bulk(b) => match utf8_to_string(b.as_slice()) {
                Ok(s) => s,
                Err(_) => bytes_debug(b.as_slice()),
            },
            Frame::Null => "(nil)".to_string(),
            Frame::Array(parts) => {
                let ghost v = frames_view(parts@);
                let mut out = String::new();
                let mut i: usize = 0;
                proof {
                    lemma_frames_view(parts@);
                    assert(v.take(0) =~= Seq::<FrameView>::empty());
                }
                while i < parts.len()
                    invariant
                        i <= parts@.len(),
                        v == frames_view(parts@),
                        v.len() == parts@.len(),
                        forall|j: int| 0 <= j < parts@.len() ==> #[trigger] v[j] == parts@[j]@,
                        out@ == parts_text(v.take(i as int)),
                        self@ == FrameView::Array(v),
                        *self == Frame::Array(*parts),
                    decreases parts@.len() - i,
                {
                    proof {
                        assert(decreases_to!(*self => *parts));
                        assert(decreases_to!(*parts => parts@));
                        assert(decreases_to!(parts@ => parts@[i as int]));
                    }
                    if i > 0 {
                        let t = parts[i].to_string();
                        out.append(" ");
                        out.append(t.as_str());
                    }
                    proof {
                        let w = v.take(i + 1);
                        assert(w.drop_last() =~= v.take(i as int));
                        assert(w.last() == v[i as int]);
                    }
                    i += 1;
                }
                proof {
                    assert(v.take(parts@.len() as int) =~= v);
                }
                out
            },
        }
    }
}

/// The views of frames are those of each frame, in order.
proof fn lemma_frames_view(s: Seq<Frame>)
    ensures
        frames_view(s).len() == s.len(),
        forall|j: int| 0 <= j < s.len() ==> #[trigger] frames_view(s)[j] == s[j]@,
    decreases s.len(),
{
    if s.len() > 0 {
        lemma_frames_view(s.drop_last());
    }
}

} // verus!
