//! Writing values and commands the way a client sends them: every value as a
//! bulk string.

use vstd::prelude::*;

use crate::db::data_type::SimpleType;

verus! {

/// The decimal digits of `n`, most significant first.
pub open spec fn decimal(n: nat) -> Seq<u8>
    decreases n,
{
    if n < 10 {
        seq![(48 + n) as u8]
    } else {
        decimal(n / 10).push((48 + n % 10) as u8)
    }
}

/// The decimal form of `i`, with a `-` in front when it is negative.
pub open spec fn signed_decimal(i: int) -> Seq<u8> {
    if i < 0 {
        seq![45u8] + decimal((-i) as nat)
    } else {
        decimal(i as nat)
    }
}

/// `b` as a bulk string: `$`, its length, `\r\n`, the bytes, `\r\n`.
pub open spec fn bulk_bytes(b: Seq<u8>) -> Seq<u8> {
    seq![36u8] + decimal(b.len()) + seq![13u8, 10u8] + b + seq![13u8, 10u8]
}

/// A value that can be written to the wire.
pub trait ToVecU8: Sized {
    /// The bytes that stand for this value on the wire.
    spec fn wire_bytes(self) -> Seq<u8>;

    fn into_vec_u8(self) -> (r: Vec<u8>)
        ensures
            r@ == self.wire_bytes(),
    ;
}

/// Appends the decimal digits of `n`.
fn push_decimal(out: &mut Vec<u8>, n: u64)
    ensures
        final(out)@ == old(out)@ + decimal(n as nat),
    decreases n,
{
    if n >= 10 {
        push_decimal(out, n / 10);
    }
    let d = (n % 10) as u8;
    out.push(48 + d);
    proof {
        if n >= 10 {
            assert(decimal(n as nat) == decimal((n / 10) as nat).push((48 + n % 10) as u8));
        }
    }
    assert(final(out)@ =~= old(out)@ + decimal(n as nat));
}

/// Appends `b` as a bulk string.
fn push_bulk(out: &mut Vec<u8>, b: &[u8])
    ensures
        final(out)@ == old(out)@ + bulk_bytes(b@),
{
    out.push(36);
    push_decimal(out, b.len() as u64);
    out.push(13);
    out.push(10);
    let mut i: usize = 0;
    let ghost start = out@;
    while i < b.len()
        invariant
            0 <= i <= b@.len(),
            out@ == start + b@.take(i as int),
        decreases b@.len() - i,
    {
        out.push(b[i]);
        proof {
            assert(b@.take(i + 1) =~= b@.take(i as int).push(b@[i as int]));
        }
        i += 1;
    }
    out.push(13);
    out.push(10);
    proof {
        assert(b@.take(b@.len() as int) =~= b@);
    }
    assert(final(out)@ =~= old(out)@ + bulk_bytes(b@));
}

/// The decimal form of `i`.
pub(crate) fn signed_decimal_bytes(i: i64) -> (r: Vec<u8>)
    ensures
        r@ == signed_decimal(i as int),
{
    let mut out: Vec<u8> = Vec::new();
    if i < 0 {
        out.push(45);
        let mag: u64 = (0i128 - (i as i128)) as u64;
        push_decimal(&mut out, mag);
        assert(out@ =~= signed_decimal(i as int));
    } else {
        push_decimal(&mut out, i as u64);
        assert(out@ =~= signed_decimal(i as int));
    }
    out
}

impl ToVecU8 for String {
    open spec fn wire_bytes(self) -> Seq<u8> {
        bulk_bytes(vstd::utf8::encode_utf8(self@))
    }

    fn into_vec_u8(self) -> (r: Vec<u8>) {
        let mut out: Vec<u8> = Vec::new();
        push_bulk(&mut out, self.as_str().as_bytes());
        assert(out@ =~= self.wire_bytes());
        out
    }
}

impl ToVecU8 for i64 {
    open spec fn wire_bytes(self) -> Seq<u8> {
        bulk_bytes(signed_decimal(self as int))
    }

    fn into_vec_u8(self) -> (r: Vec<u8>) {
        let digits = signed_decimal_bytes(self);
        let mut out: Vec<u8> = Vec::new();
        push_bulk(&mut out, digits.as_slice());
        assert(out@ =~= self.wire_bytes());
        out
    }
}

impl ToVecU8 for u64 {
    open spec fn wire_bytes(self) -> Seq<u8> {
        bulk_bytes(decimal(self as nat))
    }

    fn into_vec_u8(self) -> (r: Vec<u8>) {
        let mut digits: Vec<u8> = Vec::new();
        push_decimal(&mut digits, self);
        let mut out: Vec<u8> = Vec::new();
        push_bulk(&mut out, digits.as_slice());
        assert(digits@ =~= decimal(self as nat));
        assert(out@ =~= self.wire_bytes());
        out
    }
}

/// The bytes of a single value: bytes as they are, text and integers as bulk
/// strings, nothing as `$-1`.
pub open spec fn simple_wire_bytes(v: SimpleType) -> Seq<u8> {
    match v {
        SimpleType::Blob(b) => b@,
        SimpleType::SimpleString(s) => s.wire_bytes(),
        SimpleType::Integer(i) => i.wire_bytes(),
        SimpleType::Null => seq![36u8, 45u8, 49u8],
    }
}

impl ToVecU8 for SimpleType {
    open spec fn wire_bytes(self) -> Seq<u8> {
        simple_wire_bytes(self)
    }

    fn into_vec_u8(self) -> (r: Vec<u8>) {
        match self {
            SimpleType::Blob(b) => b,
            SimpleType::SimpleString(s) => s.into_vec_u8(),
            SimpleType::Integer(i) => i.into_vec_u8(),
            SimpleType::Null => {
                let mut out: Vec<u8> = Vec::new();
                out.push(36);
                out.push(45);
                out.push(49);
                assert(out@ =~= seq![36u8, 45u8, 49u8]);
                out
            },
        }
    }
}

/// The bytes of several values, one after the other.
pub open spec fn values_wire_bytes(s: Seq<SimpleType>) -> Seq<u8>
    decreases s.len(),
{
    if s.len() == 0 {
        Seq::empty()
    } else {
        values_wire_bytes(s.drop_last()) + simple_wire_bytes(s.last())
    }
}

impl ToVecU8 for Vec<SimpleType> {
    /// `*`, then the number of values written as a bulk string, then each
    /// value.
    open spec fn wire_bytes(self) -> Seq<u8> {
        seq![42u8] + (self@.len() as u64).wire_bytes() + values_wire_bytes(self@)
    }

    fn into_vec_u8(self) -> (r: Vec<u8>) {
        let mut res: Vec<u8> = Vec::new();
        res.push(42);
        let n = self.len() as u64;
        let mut header = n.into_vec_u8();
        res.append(&mut header);
        let ghost values = self@;
        let ghost start = res@;
        let mut rest = self;
        let ghost mut done: Seq<SimpleType> = Seq::empty();
        proof {
            assert(values_wire_bytes(done) =~= Seq::<u8>::empty());
            assert(start + Seq::<u8>::empty() =~= start);
            assert(done + rest@ =~= values);
        }
        while rest.len() > 0
            invariant
                done + rest@ == values,
                res@ == start + values_wire_bytes(done),
            decreases rest@.len(),
        {
            let ghost old_rest = rest@;
            let v = rest.remove(0);
            let ghost vv = v;
            let mut b = v.into_vec_u8();
            res.append(&mut b);
            proof {
                let old_done = done;
                assert(old_done.push(vv).drop_last() =~= old_done);
                assert(values_wire_bytes(old_done.push(vv)) == values_wire_bytes(old_done)
                    + simple_wire_bytes(vv));
                done = old_done.push(vv);
                assert(old_rest[0] == vv);
                assert(res@ =~= start + values_wire_bytes(done));
                assert(done + rest@ =~= values);
            }
        }
        proof {
            assert(done =~= values);
        }
        assert(res@ =~= self.wire_bytes());
        res
    }
}


impl ToVecU8 for Option<i64> {
    /// A number as a bulk string; no number as no bytes at all.
    open spec fn wire_bytes(self) -> Seq<u8> {
        match self {
            Some(i) => i.wire_bytes(),
            None => Seq::empty(),
        }
    }

    fn into_vec_u8(self) -> (r: Vec<u8>) {
        match self {
            Some(i) => i.into_vec_u8(),
            None => Vec::new(),
        }
    }
}

impl ToVecU8 for (i64, i64) {
    open spec fn wire_bytes(self) -> Seq<u8> {
        self.0.wire_bytes() + self.1.wire_bytes()
    }

    fn into_vec_u8(self) -> (r: Vec<u8>) {
        let mut i0 = self.0.into_vec_u8();
        let mut i1 = self.1.into_vec_u8();
        i0.append(&mut i1);
        i0
    }
}

/// The header of a command with `args_len` arguments: `*`, the number of
/// parts (the command and its arguments) in decimal, `\r\n`.
pub open spec fn cmd_header(args_len: nat) -> Seq<u8> {
    seq![42u8] + decimal(args_len + 1) + seq![13u8, 10u8]
}

/// Starts a command: the array header for the command and its `args_len`
/// arguments, then the command's name as a bulk string. The arguments follow
/// with `append_arg`.
pub fn build_cmd(cmd: String, args_len: usize) -> (r: Vec<u8>)
    requires
        args_len < usize::MAX,
    ensures
        r@ == cmd_header(args_len as nat) + cmd.wire_bytes(),
{
    let mut res: Vec<u8> = Vec::new();
    res.push(42);
    push_decimal(&mut res, (args_len + 1) as u64);
    res.push(13);
    res.push(10);
    let mut name = cmd.into_vec_u8();
    res.append(&mut name);
    assert(res@ =~= cmd_header(args_len as nat) + cmd.wire_bytes());
    res
}

/// Appends one argument to a command.
pub fn append_arg<T: ToVecU8>(cmd: &mut Vec<u8>, arg: T)
    ensures
        final(cmd)@ == old(cmd)@ + arg.wire_bytes(),
{
    let mut bytes = arg.into_vec_u8();
    cmd.append(&mut bytes);
}

} // verus!
