//! Numbers in bytes, most significant byte first.
use vstd::arithmetic::power::pow;
use vstd::prelude::*;

verus! {

/// The two bytes at `i`, most significant first.
pub open spec fn be16(b: Seq<u8>, i: int) -> int {
    b[i] * 256 + b[i + 1]
}

/// The two bytes at `i`, most significant first.
pub fn read_be16(b: &[u8], i: usize) -> (n: usize)
    requires
        i + 1 < b@.len(),
    ensures
        n == be16(b@, i as int),
        n <= 0xffff,
{
    b[i] as usize * 256 + b[i + 1] as usize
}

/// `n` in two bytes, most significant first.
pub open spec fn be16_bytes(n: nat) -> Seq<u8> {
    seq![(n / 256) as u8, (n % 256) as u8]
}

/// Two bytes that hold a number are read as that number.
pub proof fn lemma_be16_bytes(b: Seq<u8>, i: int, n: nat)
    requires
        0 <= i,
        i + 2 <= b.len(),
        n <= 0xffff,
        b.subrange(i, i + 2) == be16_bytes(n),
    ensures
        be16(b, i) == n,
{
    assert(b[i] == b.subrange(i, i + 2)[0]);
    assert(b[i + 1] == b.subrange(i, i + 2)[1]);
}

/// The lowest `len` bytes of `n`, most significant first.
pub open spec fn be_bytes(n: nat, len: nat) -> Seq<u8>
    decreases len,
{
    if len == 0 {
        Seq::empty()
    } else {
        be_bytes(n / 256, (len - 1) as nat).push((n % 256) as u8)
    }
}

/// The number that some bytes spell, most significant first.
pub open spec fn be_value(b: Seq<u8>) -> nat
    decreases b.len(),
{
    if b.len() == 0 {
        0
    } else {
        be_value(b.drop_last()) * 256 + b.last() as nat
    }
}

/// Appends the lowest `len` bytes of `n` to `out`.
pub fn push_be_bytes(out: &mut Vec<u8>, n: u128, len: usize)
    ensures
        final(out)@ == old(out)@ + be_bytes(n as nat, len as nat),
    decreases len,
{
    let ghost before = out@;
    if len > 0 {
        push_be_bytes(out, n / 256, len - 1);
        out.push((n % 256) as u8);
    }
    assert(out@ == before + be_bytes(n as nat, len as nat));
}

/// A number is read back from the bytes that hold it.
pub proof fn lemma_be_value(n: nat, len: nat)
    requires
        n < pow(256, len),
    ensures
        be_value(be_bytes(n, len)) == n,
        be_bytes(n, len).len() == len,
    decreases len,
{
    reveal(pow);
    if len > 0 {
        let front = (len - 1) as nat;
        assert(n / 256 < pow(256, front)) by (nonlinear_arith)
            requires
                n < 256 * pow(256, front),
        ;
        lemma_be_value(n / 256, front);
        assert(be_bytes(n, len).drop_last() == be_bytes(n / 256, front));
    }
}

/// Appends `bytes` to `out`.
pub fn push_bytes(out: &mut Vec<u8>, bytes: &[u8])
    ensures
        final(out)@ == old(out)@ + bytes@,
{
    let ghost before = out@;
    for i in 0..bytes.len()
        invariant
            out@ == before + bytes@.take(i as int),
    {
        out.push(bytes[i]);
    }
    assert(bytes@.take(bytes@.len() as int) == bytes@);
}

/// The number of values of four and of sixteen bytes.
pub proof fn lemma_pow256()
    ensures
        pow(256, 4) == u32::MAX + 1,
        pow(256, 16) == u128::MAX + 1,
{
    reveal(pow);
    reveal_with_fuel(pow, 17);
}

/// A byte behind others counts one, and each of those 256 times as much.
pub proof fn law_most_significant_byte_first(b: Seq<u8>, x: u8)
    ensures
        be_value(Seq::empty()) == 0,
        be_value(b.push(x)) == 256 * be_value(b) + x,
{
    assert(b.push(x).drop_last() == b);
}

} // verus!
