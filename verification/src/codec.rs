//! Little-endian byte encodings of integers, as hashed into leaves and
//! order digests.
use vstd::prelude::*;

verus! {

/// The number that little-endian bytes stand for, least significant first.
pub open spec fn le_value(bytes: Seq<u8>) -> nat
    decreases bytes.len(),
{
    if bytes.len() == 0 {
        0
    } else {
        bytes[0] as nat + 256 * le_value(bytes.drop_first())
    }
}

/// `256` to the power `n`.
spec fn byte_power(n: nat) -> nat
    decreases n,
{
    if n == 0 {
        1
    } else {
        256 * byte_power((n - 1) as nat)
    }
}

/// The lowest `n` bytes of `x` are `n` bytes long and stand for `x` modulo
/// `256^n`.
proof fn lemma_le_bytes_value(x: nat, n: nat)
    ensures
        le_bytes(x, n).len() == n,
        byte_power(n) > 0,
        le_value(le_bytes(x, n)) == x % byte_power(n),
    decreases n,
{
    if n == 0 {
        assert(x % 1 == 0) by (nonlinear_arith);
    } else {
        let m = (n - 1) as nat;
        lemma_le_bytes_value(x / 256, m);
        let b = le_bytes(x, n);
        assert(b.drop_first() =~= le_bytes(x / 256, m));
        vstd::arithmetic::div_mod::lemma_mod_breakdown(x as int, 256, byte_power(m) as int);
    }
}

/// Decoding the 8-byte little-endian encoding of a `u64` gives the number
/// back.
pub proof fn u64_le_decodes(x: u64)
    ensures
        u64_le(x).len() == 8,
        le_value(u64_le(x)) == x,
{
    lemma_le_bytes_value(x as nat, 8);
    assert(byte_power(8) == 0x1_0000_0000_0000_0000) by {
        reveal_with_fuel(byte_power, 9);
    }
    vstd::arithmetic::div_mod::lemma_small_mod(x as nat, byte_power(8));
}

/// The lowest `n` bytes of `x`, least significant first.
pub open spec fn le_bytes(x: nat, n: nat) -> Seq<u8>
    decreases n,
{
    if n == 0 {
        Seq::empty()
    } else {
        seq![(x % 256) as u8] + le_bytes(x / 256, (n - 1) as nat)
    }
}

/// The 8-byte little-endian encoding of a `u64`.
pub open spec fn u64_le(x: u64) -> Seq<u8> {
    le_bytes(x as nat, 8)
}

/// Appends the 8-byte little-endian encoding of `x` to `out`.
pub fn push_u64_le(out: &mut Vec<u8>, x: u64)
    ensures
        final(out)@ == old(out)@ + u64_le(x),
{
    let ghost start = out@;
    let mut v: u64 = x;
    let mut i: u64 = 0;
    while i < 8
        invariant
            i <= 8,
            out@ + le_bytes(v as nat, (8 - i) as nat) == start + u64_le(x),
        decreases 8 - i,
    {
        let ghost before = out@;
        let byte = (v % 256) as u8;
        proof {
            assert(le_bytes(v as nat, (8 - i) as nat) == seq![byte] + le_bytes(
                (v / 256) as nat,
                (8 - i - 1) as nat,
            ));
        }
        out.push(byte);
        proof {
            assert(out@ + le_bytes((v / 256) as nat, (8 - i - 1) as nat) =~= before + (seq![byte]
                + le_bytes((v / 256) as nat, (8 - i - 1) as nat)));
        }
        v = v / 256;
        i = i + 1;
    }
    proof {
        assert(le_bytes(v as nat, 0) =~= Seq::<u8>::empty());
        assert(out@ =~= out@ + le_bytes(v as nat, 0));
    }
}

/// Appends all of `bytes` to `out`.
pub fn push_bytes(out: &mut Vec<u8>, bytes: &[u8])
    ensures
        final(out)@ == old(out)@ + bytes@,
{
    let ghost start = out@;
    let n = bytes.len();
    let mut i: usize = 0;
    while i < n
        invariant
            n == bytes@.len(),
            i <= n,
            out@ == start + bytes@.take(i as int),
        decreases n - i,
    {
        out.push(bytes[i]);
        i = i + 1;
        assert(out@ =~= start + bytes@.take(i as int));
    }
    assert(bytes@.take(n as int) =~= bytes@);
}

} // verus!
