//! Big-endian unsigned integers on byte sequences.
use vstd::prelude::*;

verus! {

/// `256` to the power `n`: the number of values that `n` bytes can hold.
pub open spec fn byte_bound(n: nat) -> nat
    decreases n,
{
    if n == 0 {
        1
    } else {
        256 * byte_bound((n - 1) as nat)
    }
}

/// The value of big-endian bytes.
pub open spec fn be_value(s: Seq<u8>) -> nat
    decreases s.len(),
{
    if s.len() == 0 {
        0
    } else {
        be_value(s.drop_last()) * 256 + s.last() as nat
    }
}

/// The big-endian encoding of `v` in `n` bytes.
pub open spec fn be_bytes(v: nat, n: nat) -> Seq<u8>
    decreases n,
{
    if n == 0 {
        Seq::empty()
    } else {
        be_bytes(v / 256, (n - 1) as nat).push((v % 256) as u8)
    }
}

pub proof fn lemma_byte_bound_8()
    ensures
        byte_bound(8) == 0x1_0000_0000_0000_0000,
        byte_bound(4) == 0x1_0000_0000,
        byte_bound(2) == 0x1_0000,
{
    reveal_with_fuel(byte_bound, 9);
}

/// Decoding an encoding gives the value back.
pub proof fn lemma_be_round_trip(v: nat, n: nat)
    requires
        v < byte_bound(n),
    ensures
        be_bytes(v, n).len() == n,
        be_value(be_bytes(v, n)) == v,
    decreases n,
{
    if n > 0 {
        lemma_be_round_trip(v / 256, (n - 1) as nat);
        let s = be_bytes(v, n);
        assert(s.drop_last() =~= be_bytes(v / 256, (n - 1) as nat));
    }
}

/// Bytes hold a value below their bound.
pub proof fn lemma_be_value_bound(s: Seq<u8>)
    ensures
        be_value(s) < byte_bound(s.len()),
    decreases s.len(),
{
    if s.len() > 0 {
        lemma_be_value_bound(s.drop_last());
    }
}

/// The encoding of a decoded value gives the bytes back.
pub proof fn lemma_be_bytes_of_value(s: Seq<u8>)
    ensures
        be_bytes(be_value(s), s.len()) == s,
    decreases s.len(),
{
    if s.len() > 0 {
        lemma_be_bytes_of_value(s.drop_last());
        let v = be_value(s);
        assert(v / 256 == be_value(s.drop_last()));
        assert(v % 256 == s.last());
        assert(be_bytes(v, s.len()) =~= s);
    }
}

/// Appends the big-endian encoding of `v` in `n` bytes.
pub fn push_be(out: &mut Vec<u8>, v: u64, n: usize)
    requires
        n <= 8,
        v < byte_bound(n as nat),
    ensures
        final(out)@ == old(out)@ + be_bytes(v as nat, n as nat),
    decreases n,
{
    if n == 0 {
        assert(old(out)@ + Seq::<u8>::empty() =~= old(out)@);
        return;
    }
    push_be(out, v / 256, n - 1);
    out.push((v % 256) as u8);
    assert(final(out)@ =~= old(out)@ + be_bytes(v as nat, n as nat));
}

/// Reads `n` big-endian bytes starting at `pos`.
pub fn read_be(b: &[u8], pos: usize, n: usize) -> (v: u64)
    requires
        n <= 8,
        pos + n <= b@.len(),
    ensures
        v == be_value(b@.subrange(pos as int, pos + n)),
{
    let mut v: u64 = 0;
    let mut i: usize = 0;
    let len = b.len();
    proof {
        assert(b@.subrange(pos as int, pos as int) =~= Seq::<u8>::empty());
    }
    while i < n
        invariant
            len == b@.len(),
            i <= n <= 8,
            pos + n <= b@.len(),
            v == be_value(b@.subrange(pos as int, pos + i)),
        decreases n - i,
    {
        proof {
            lemma_be_value_bound(b@.subrange(pos as int, pos + i));
            lemma_byte_bound_monotone(i as nat, 7);
            lemma_byte_bound_8();
            assert(b@.subrange(pos as int, pos + i + 1).drop_last() =~= b@.subrange(pos as int, pos + i));
        }
        v = v * 256 + b[pos + i] as u64;
        i = i + 1;
    }
    v
}

pub proof fn lemma_byte_bound_monotone(a: nat, b: nat)
    requires
        a <= b,
    ensures
        byte_bound(a) <= byte_bound(b),
    decreases b,
{
    if a < b {
        lemma_byte_bound_monotone(a, (b - 1) as nat);
    }
}

} // verus!
