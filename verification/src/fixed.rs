//! Fixed-width big-endian integers: the representation whose byte order is
//! the order of the numbers.

use vstd::prelude::*;
use vstd::slice::slice_subrange;
use crate::errors::CodecError;
use crate::lex::lex_lt;

verus! {

/// The `width` low bytes of `value`, the most significant first.
pub open spec fn be_bytes(value: nat, width: nat) -> Seq<u8>
    decreases width,
{
    if width == 0 {
        Seq::empty()
    } else {
        be_bytes(value / 256, (width - 1) as nat).push((value % 256) as u8)
    }
}

/// The number that `bytes` hold, the most significant byte first.
pub open spec fn be_value(bytes: Seq<u8>) -> nat
    decreases bytes.len(),
{
    if bytes.len() == 0 {
        0
    } else {
        be_value(bytes.drop_last()) * 256 + bytes.last() as nat
    }
}

/// `value` can be written in `width` bytes.
pub open spec fn fits(value: nat, width: nat) -> bool
    decreases width,
{
    if width == 0 {
        value == 0
    } else {
        fits(value / 256, (width - 1) as nat)
    }
}

/// A number is written in as many bytes as were asked for.
pub proof fn lemma_be_len(value: nat, width: nat)
    ensures
        be_bytes(value, width).len() == width,
    decreases width,
{
    if width > 0 {
        lemma_be_len(value / 256, (width - 1) as nat);
    }
}

/// Reading undoes writing, for a number that fits the width.
pub proof fn lemma_be_roundtrip(value: nat, width: nat)
    requires
        fits(value, width),
    ensures
        be_value(be_bytes(value, width)) == value,
    decreases width,
{
    if width > 0 {
        let front = be_bytes(value / 256, (width - 1) as nat);
        lemma_be_roundtrip(value / 256, (width - 1) as nat);
        assert(be_bytes(value, width).drop_last() =~= front);
    }
}

/// Writing undoes reading: bytes are the representation of the number they hold.
pub proof fn lemma_be_of_value(bytes: Seq<u8>)
    ensures
        fits(be_value(bytes), bytes.len()),
        be_bytes(be_value(bytes), bytes.len()) == bytes,
    decreases bytes.len(),
{
    if bytes.len() > 0 {
        lemma_be_of_value(bytes.drop_last());
        let high = be_value(bytes.drop_last());
        assert((high * 256 + bytes.last() as nat) / 256 == high);
        assert((high * 256 + bytes.last() as nat) % 256 == bytes.last() as nat);
        assert(be_bytes(be_value(bytes), bytes.len()) =~= bytes);
    }
}

/// Every 64-bit number fits eight bytes, and eight bytes hold a 64-bit number.
pub proof fn lemma_u64_fits(value: nat)
    ensures
        fits(value, 8) <==> value <= u64::MAX,
{
    reveal_with_fuel(fits, 9);
}

/// Among byte strings of one length, the last byte decides only where all
/// the others agree.
pub proof fn lemma_lex_push(x: Seq<u8>, y: Seq<u8>, p: u8, q: u8)
    requires
        x.len() == y.len(),
    ensures
        lex_lt(x.push(p), y.push(q)) == (lex_lt(x, y) || (x == y && p < q)),
    decreases x.len(),
{
    if x.len() == 0 {
        assert(x =~= y);
        assert(x.push(p).skip(1) =~= Seq::<u8>::empty());
        assert(y.push(q).skip(1) =~= Seq::<u8>::empty());
        assert(!lex_lt(Seq::<u8>::empty(), Seq::<u8>::empty()));
        assert(!lex_lt(x, y));
        assert(x.push(p)[0] == p && y.push(q)[0] == q);
    } else {
        assert(x.push(p)[0] == x[0] && y.push(q)[0] == y[0]);
        assert(x.push(p).skip(1) =~= x.skip(1).push(p));
        assert(y.push(q).skip(1) =~= y.skip(1).push(q));
        if x[0] == y[0] {
            lemma_lex_push(x.skip(1), y.skip(1), p, q);
            if x.skip(1) == y.skip(1) {
                assert(x =~= seq![x[0]] + x.skip(1));
                assert(y =~= seq![y[0]] + y.skip(1));
            }
        }
    }
}

/// The representation preserves the order: of two numbers that fit the
/// width, the smaller has the representation that stands first.
pub proof fn lemma_be_order(a: nat, b: nat, width: nat)
    requires
        fits(a, width),
        fits(b, width),
    ensures
        lex_lt(be_bytes(a, width), be_bytes(b, width)) == (a < b),
        (be_bytes(a, width) == be_bytes(b, width)) == (a == b),
    decreases width,
{
    lemma_be_roundtrip(a, width);
    lemma_be_roundtrip(b, width);
    if width > 0 {
        let w = (width - 1) as nat;
        lemma_be_order(a / 256, b / 256, w);
        lemma_be_len(a / 256, w);
        lemma_be_len(b / 256, w);
        lemma_lex_push(
            be_bytes(a / 256, w),
            be_bytes(b / 256, w),
            (a % 256) as u8,
            (b % 256) as u8,
        );
    }
}

/// Appends the eight bytes of `value` to `out`, the most significant first.
pub fn write_u64(value: u64, out: &mut Vec<u8>)
    ensures
        final(out)@ == old(out)@ + be_bytes(value as nat, 8),
{
    let v1: u64 = value / 256;
    let v2: u64 = v1 / 256;
    let v3: u64 = v2 / 256;
    let v4: u64 = v3 / 256;
    let v5: u64 = v4 / 256;
    let v6: u64 = v5 / 256;
    let v7: u64 = v6 / 256;
    out.push((v7 % 256) as u8);
    out.push((v6 % 256) as u8);
    out.push((v5 % 256) as u8);
    out.push((v4 % 256) as u8);
    out.push((v3 % 256) as u8);
    out.push((v2 % 256) as u8);
    out.push((v1 % 256) as u8);
    out.push((value % 256) as u8);
    proof {
        reveal_with_fuel(be_bytes, 9);
        assert(out@ =~= old(out)@ + be_bytes(value as nat, 8));
    }
}

/// Reads the eight bytes at the front of `input` as a number.
pub fn read_u64<'a>(input: &'a [u8]) -> (r: Result<(u64, &'a [u8]), CodecError>)
    ensures
        match r {
            Ok((value, rest)) => input@.len() >= 8 && value == be_value(input@.take(8))
                && rest@ == input@.skip(8),
            Err(error) => input@.len() < 8 && error == CodecError::BufferUnderflow,
        },
{
    if input.len() < 8 {
        return Err(CodecError::BufferUnderflow);
    }
    let ghost head = input@.take(8);
    proof {
        reveal_with_fuel(be_value, 9);
        assert(head.drop_last() =~= input@.take(7));
        assert(input@.take(7).drop_last() =~= input@.take(6));
        assert(input@.take(6).drop_last() =~= input@.take(5));
        assert(input@.take(5).drop_last() =~= input@.take(4));
        assert(input@.take(4).drop_last() =~= input@.take(3));
        assert(input@.take(3).drop_last() =~= input@.take(2));
        assert(input@.take(2).drop_last() =~= input@.take(1));
        assert(input@.take(1).drop_last() =~= input@.take(0));
    }
    let a0: u64 = input[0] as u64;
    assert(a0 == be_value(input@.take(1)));
    let a1: u64 = a0 * 256 + input[1] as u64;
    assert(a1 == be_value(input@.take(2)) && a1 < 0x1_0000);
    let a2: u64 = a1 * 256 + input[2] as u64;
    assert(a2 == be_value(input@.take(3)) && a2 < 0x100_0000);
    let a3: u64 = a2 * 256 + input[3] as u64;
    assert(a3 == be_value(input@.take(4)) && a3 < 0x1_0000_0000);
    let a4: u64 = a3 * 256 + input[4] as u64;
    assert(a4 == be_value(input@.take(5)) && a4 < 0x100_0000_0000);
    let a5: u64 = a4 * 256 + input[5] as u64;
    assert(a5 == be_value(input@.take(6)) && a5 < 0x1_0000_0000_0000);
    let a6: u64 = a5 * 256 + input[6] as u64;
    assert(a6 == be_value(input@.take(7)) && a6 < 0x100_0000_0000_0000);
    let a7: u64 = a6 * 256 + input[7] as u64;
    assert(a7 == be_value(head));
    let rest = slice_subrange(input, 8, input.len());
    Ok((a7, rest))
}

} // verus!
