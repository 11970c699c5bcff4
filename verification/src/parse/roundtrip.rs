//! What a client writes, the parser reads back.

use vstd::prelude::*;

use super::frame::{
    crlf_at, line_len, spec_header, spec_parse, spec_parse_items, FrameView, Header, Parsed,
    ParsedItems,
};
use super::to_bytes::{bulk_bytes, cmd_header, decimal, signed_decimal};
use crate::utils::numeric::{digit_run, digits_value, is_digit, spec_atoi};

verus! {

/// Several byte strings, each written as a bulk string, one after the other.
pub open spec fn bulks(args: Seq<Seq<u8>>) -> Seq<u8>
    decreases args.len(),
{
    if args.len() == 0 {
        Seq::empty()
    } else {
        bulk_bytes(args[0]) + bulks(args.drop_first())
    }
}

/// The bytes of a command named `cmd` with the arguments `args`, as
/// `build_cmd` and one `append_arg` per argument write them.
pub open spec fn command_bytes(cmd: Seq<u8>, args: Seq<Seq<u8>>) -> Seq<u8> {
    cmd_header(args.len()) + bulk_bytes(cmd) + bulks(args)
}

/// The frames a list of byte strings is read back as.
pub open spec fn bulk_frames(args: Seq<Seq<u8>>) -> Seq<FrameView> {
    args.map_values(|a: Seq<u8>| FrameView::Bulk(a))
}

pub(crate) proof fn lemma_decimal(n: nat)
    ensures
        decimal(n).len() >= 1,
        forall|i: int| 0 <= i < decimal(n).len() ==> is_digit(#[trigger] decimal(n)[i]),
        digits_value(decimal(n)) == n,
    decreases n,
{
    if n < 10 {
        assert(decimal(n).drop_last() =~= Seq::<u8>::empty());
        assert(decimal(n).last() == 48 + n);
        assert(digits_value(Seq::<u8>::empty()) == 0);
        assert(digits_value(decimal(n)) == 10 * digits_value(decimal(n).drop_last()) + (
        decimal(n).last() - 0x30));
    } else {
        lemma_decimal(n / 10);
        let d = decimal(n / 10);
        assert(decimal(n).drop_last() =~= d);
        assert(n % 10 < 10);
        assert(decimal(n).last() == 48 + n % 10);
        assert(n == 10 * (n / 10) + n % 10);
        assert(digits_value(decimal(n)) == 10 * digits_value(decimal(n).drop_last()) + (
        decimal(n).last() - 0x30));
    }
}

proof fn lemma_digit_run(p: Seq<u8>, r: Seq<u8>)
    requires
        forall|i: int| 0 <= i < p.len() ==> is_digit(#[trigger] p[i]),
        r.len() == 0 || !is_digit(r[0]),
    ensures
        digit_run(p + r) == p.len(),
    decreases p.len(),
{
    if p.len() == 0 {
        assert(p + r =~= r);
    } else {
        assert((p + r).drop_first() =~= p.drop_first() + r);
        lemma_digit_run(p.drop_first(), r);
    }
}

proof fn lemma_line_len(p: Seq<u8>, r: Seq<u8>)
    requires
        forall|i: int| 0 <= i < p.len() ==> is_digit(#[trigger] p[i]),
        r.len() > 0,
        r[0] == 13,
    ensures
        line_len(p + r) == p.len(),
    decreases p.len(),
{
    if p.len() == 0 {
        assert(p + r =~= r);
    } else {
        assert((p + r).drop_first() =~= p.drop_first() + r);
        lemma_line_len(p.drop_first(), r);
    }
}

proof fn lemma_atoi_decimal(n: nat, r: Seq<u8>)
    requires
        n <= i64::MAX,
        r.len() == 0 || !is_digit(r[0]),
    ensures
        spec_atoi(decimal(n) + r) == Some(n as i64),
{
    lemma_decimal(n);
    let d = decimal(n);
    let s = d + r;
    assert(s[0] == d[0]);
    assert(s.skip(0) =~= s);
    lemma_digit_run(d, r);
    assert(s.take(d.len() as int) =~= d);
}

/// What `i64::into_vec_u8` writes as the number, `atoi` reads back.
pub proof fn lemma_signed_decimal_round_trip(i: i64)
    ensures
        spec_atoi(signed_decimal(i as int)) == Some(i),
{
    if i < 0 {
        let m = (-i) as nat;
        lemma_decimal(m);
        let d = decimal(m);
        let s = seq![45u8] + d;
        assert(s.skip(1) =~= d);
        lemma_digit_run(d, Seq::empty());
        assert(d + Seq::<u8>::empty() =~= d);
        assert(d.take(d.len() as int) =~= d);
    } else {
        lemma_atoi_decimal(i as nat, Seq::empty());
        assert(decimal(i as nat) + Seq::<u8>::empty() =~= decimal(i as nat));
    }
}

/// A bulk string is read back as the bytes it holds, whatever follows it.
pub proof fn lemma_bulk_round_trip(b: Seq<u8>, rest: Seq<u8>)
    requires
        b.len() <= i64::MAX,
    ensures
        spec_parse(bulk_bytes(b) + rest) == (Parsed::Done {
            frame: FrameView::Bulk(b),
            used: bulk_bytes(b).len(),
        }),
{
    let d = decimal(b.len());
    lemma_decimal(b.len());
    let tail = seq![13u8, 10u8] + b + seq![13u8, 10u8] + rest;
    let s = bulk_bytes(b) + rest;
    assert(s =~= seq![36u8] + (d + tail));
    assert(s.skip(1) =~= d + tail);
    lemma_line_len(d, tail);
    let l: int = d.len() as int;
    assert(s.subrange(1, 1 + l) =~= d + Seq::<u8>::empty());
    lemma_atoi_decimal(b.len(), Seq::empty());
    assert(d + Seq::<u8>::empty() =~= d);
    assert(s[1 + l] == 13 && s[2 + l] == 10);
    assert(crlf_at(s, 1 + l));
    assert(spec_header(s) == Header::Num { value: b.len() as i64, len: (l + 3) as nat });
    let end: int = l + 3 + b.len();
    assert(s[end] == 13 && s[end + 1] == 10);
    assert(s.subrange(l + 3, end) =~= b);
    assert(bulk_bytes(b).len() == end + 2);
}

proof fn lemma_bulks_round_trip(args: Seq<Seq<u8>>, rest: Seq<u8>)
    requires
        forall|i: int| 0 <= i < args.len() ==> (#[trigger] args[i]).len() <= i64::MAX,
    ensures
        spec_parse_items(bulks(args) + rest, args.len()) == (ParsedItems::Done {
            frames: bulk_frames(args),
            used: bulks(args).len(),
        }),
    decreases args.len(),
{
    if args.len() == 0 {
        assert(bulk_frames(args) =~= Seq::<FrameView>::empty());
    } else {
        let a0 = args[0];
        let tail = args.drop_first();
        let s = bulks(args) + rest;
        let after = bulks(tail) + rest;
        assert(s =~= bulk_bytes(a0) + after);
        lemma_bulk_round_trip(a0, after);
        let u = bulk_bytes(a0).len();
        assert(s.skip(u as int) =~= after);
        assert forall|i: int| 0 <= i < tail.len() implies (#[trigger] tail[i]).len() <= i64::MAX by {
            assert(tail[i] == args[i + 1]);
        }
        lemma_bulks_round_trip(tail, rest);
        assert(bulk_frames(args) =~= seq![FrameView::Bulk(a0)] + bulk_frames(tail));
    }
}

/// A command written with `build_cmd` and `append_arg` is read back as an
/// array whose first element is the command's name and whose other elements
/// are its arguments, in order, whatever follows it.
pub proof fn lemma_command_round_trip(cmd: Seq<u8>, args: Seq<Seq<u8>>, rest: Seq<u8>)
    requires
        cmd.len() <= i64::MAX,
        args.len() + 1 <= i64::MAX,
        forall|i: int| 0 <= i < args.len() ==> (#[trigger] args[i]).len() <= i64::MAX,
    ensures
        spec_parse(command_bytes(cmd, args) + rest) == (Parsed::Done {
            frame: FrameView::Array(seq![FrameView::Bulk(cmd)] + bulk_frames(args)),
            used: command_bytes(cmd, args).len(),
        }),
{
    let n = args.len() + 1;
    let d = decimal(n);
    lemma_decimal(n);
    let all = seq![cmd] + args;
    assert(all[0] == cmd);
    assert(all.drop_first() =~= args);
    assert(bulks(all) == bulk_bytes(cmd) + bulks(args));
    let body = bulks(all) + rest;
    let tail = seq![13u8, 10u8] + body;
    let s = command_bytes(cmd, args) + rest;
    assert(s =~= seq![42u8] + (d + tail));
    assert(s.skip(1) =~= d + tail);
    lemma_line_len(d, tail);
    let l: int = d.len() as int;
    assert(s.subrange(1, 1 + l) =~= d + Seq::<u8>::empty());
    lemma_atoi_decimal(n, Seq::empty());
    assert(d + Seq::<u8>::empty() =~= d);
    assert(s[1 + l] == 13 && s[2 + l] == 10);
    assert(crlf_at(s, 1 + l));
    assert(spec_header(s) == Header::Num { value: n as i64, len: (l + 3) as nat });
    assert(s.skip(l + 3) =~= body);
    assert forall|i: int| 0 <= i < all.len() implies (#[trigger] all[i]).len() <= i64::MAX by {
        if i > 0 {
            assert(all[i] == args[i - 1]);
        }
    }
    lemma_bulks_round_trip(all, rest);
    assert(bulk_frames(all) =~= seq![FrameView::Bulk(cmd)] + bulk_frames(args));
}

} // verus!
