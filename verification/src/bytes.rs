//! Numbers as bytes, least significant first.

use vstd::prelude::*;

verus! {

/// A number's bytes, least significant first.
pub open spec fn little_endian(n: nat, count: nat) -> Seq<u8>
    decreases count,
{
    if count == 0 {
        Seq::empty()
    } else {
        seq![(n % 256) as u8] + little_endian(n / 256, (count - 1) as nat)
    }
}

/// The number that bytes stand for, least significant first.
pub open spec fn number_of(bytes: Seq<u8>) -> nat
    decreases bytes.len(),
{
    if bytes.len() == 0 {
        0
    } else {
        bytes[0] as nat + 256 * number_of(bytes.skip(1))
    }
}

/// How many numbers so many bytes can tell apart.
pub open spec fn reach(count: nat) -> nat
    decreases count,
{
    if count == 0 {
        1
    } else {
        256 * reach((count - 1) as nat)
    }
}

pub proof fn lemma_little_endian(n: nat, count: nat)
    requires
        n < reach(count),
    ensures
        little_endian(n, count).len() == count,
        number_of(little_endian(n, count)) == n,
    decreases count,
{
    if count > 0 {
        lemma_little_endian(n / 256, (count - 1) as nat);
        assert(little_endian(n, count).skip(1) =~= little_endian(n / 256, (count - 1) as nat));
    }
}

pub proof fn lemma_little_endian_len(n: nat, count: nat)
    ensures
        little_endian(n, count).len() == count,
    decreases count,
{
    if count > 0 {
        lemma_little_endian_len(n / 256, (count - 1) as nat);
    }
}

/// The sixteen bytes of a number, least significant first.
pub fn bytes_of(n: u128) -> (r: Vec<u8>)
    ensures
        r@ == little_endian(n as nat, 16),
        r@.len() == 16,
{
    let ghost wanted = little_endian(n as nat, 16);
    let mut out: Vec<u8> = Vec::new();
    let mut rest: u128 = n;
    let mut i: u8 = 0;
    assert(out@ + little_endian(rest as nat, 16) =~= wanted);
    while i < 16
        invariant
            i <= 16,
            out@.len() == i,
            out@ + little_endian(rest as nat, (16 - i) as nat) == wanted,
        decreases 16 - i,
    {
        let ghost before = out@;
        let ghost tail = little_endian((rest / 256) as nat, (15 - i) as nat);
        assert(little_endian(rest as nat, (16 - i) as nat) =~= seq![(rest % 256) as u8] + tail);
        out.push((rest % 256) as u8);
        assert(out@ + tail =~= before + (seq![(rest % 256) as u8] + tail));
        rest = rest / 256;
        i += 1;
    }
    assert(out@ + little_endian(rest as nat, 0) =~= out@);
    out
}

/// Appends the four bytes of a number, least significant first.
pub fn push_u32(out: &mut Vec<u8>, n: u32)
    ensures
        final(out)@ == old(out)@ + little_endian(n as nat, 4),
{
    let ghost before = out@;
    out.push((n % 256) as u8);
    out.push((n / 256 % 256) as u8);
    out.push((n / 65536 % 256) as u8);
    out.push((n / 16777216) as u8);
    proof {
        reveal_with_fuel(little_endian, 5);
        assert((n as nat / 256) / 256 == n as nat / 65536);
        assert((n as nat / 65536) / 256 == n as nat / 16777216);
        assert(out@ =~= before + little_endian(n as nat, 4));
    }
}

/// The number that four bytes stand for, least significant first.
pub fn read_u32(a: u8, b: u8, c: u8, d: u8) -> (r: u32)
    ensures
        r == number_of(seq![a, b, c, d]),
{
    proof {
        reveal_with_fuel(number_of, 5);
        let s = seq![a, b, c, d];
        assert(s.skip(1) =~= seq![b, c, d]);
        assert(seq![b, c, d].skip(1) =~= seq![c, d]);
        assert(seq![c, d].skip(1) =~= seq![d]);
        assert(seq![d].skip(1) =~= Seq::empty());
    }
    a as u32 + 256 * (b as u32 + 256 * (c as u32 + 256 * d as u32))
}

} // verus!
