use vstd::prelude::*;

verus! {

/// `256^n`.
pub open spec fn pow256(n: nat) -> nat
    decreases n,
{
    if n == 0 { 1 } else { 256 * pow256((n - 1) as nat) }
}

/// The `n` low-order bytes of `v`, most significant first (big-endian).
pub open spec fn be_bytes(v: nat, n: nat) -> Seq<u8>
    decreases n,
{
    if n == 0 {
        Seq::empty()
    } else {
        be_bytes(v / 256, (n - 1) as nat).push((v % 256) as u8)
    }
}

/// The number that a big-endian byte string denotes.
pub open spec fn be_value(s: Seq<u8>) -> nat
    decreases s.len(),
{
    if s.len() == 0 {
        0
    } else {
        be_value(s.drop_last()) * 256 + s.last() as nat
    }
}

/// Two's complement: the 64-bit pattern of a signed integer, read unsigned.
pub open spec fn i64_bits(v: int) -> nat {
    if v >= 0 { v as nat } else { (v + 0x1_0000_0000_0000_0000) as nat }
}

/// Two's complement: the signed integer that a 64-bit pattern denotes.
pub open spec fn bits_i64(u: nat) -> int {
    if u < 0x8000_0000_0000_0000 { u as int } else { u - 0x1_0000_0000_0000_0000 }
}

/// The eight big-endian bytes of a `u64`.
pub open spec fn u64_be(v: u64) -> Seq<u8> {
    be_bytes(v as nat, 8)
}

/// The eight big-endian two's-complement bytes of an `i64`.
pub open spec fn i64_be(v: i64) -> Seq<u8> {
    be_bytes(i64_bits(v as int), 8)
}

/// The `u64` that eight big-endian bytes denote.
pub open spec fn read_u64(b: Seq<u8>) -> u64 {
    be_value(b) as u64
}

/// The `i64` that eight big-endian two's-complement bytes denote.
pub open spec fn read_i64(b: Seq<u8>) -> i64 {
    bits_i64(be_value(b)) as i64
}

pub proof fn lemma_pow256_8()
    ensures
        pow256(8) == 0x1_0000_0000_0000_0000,
        pow256(7) == 0x100_0000_0000_0000,
{
    reveal_with_fuel(pow256, 9);
}

pub proof fn lemma_pow256_mono(a: nat, b: nat)
    requires
        a <= b,
    ensures
        1 <= pow256(a) <= pow256(b),
    decreases b,
{
    if b > 0 {
        if b > a {
            lemma_pow256_mono(a, (b - 1) as nat);
        } else {
            lemma_pow256_mono((a - 1) as nat, (b - 1) as nat);
        }
    }
}

pub proof fn lemma_be_bytes_len(v: nat, n: nat)
    ensures
        be_bytes(v, n).len() == n,
    decreases n,
{
    if n > 0 {
        lemma_be_bytes_len(v / 256, (n - 1) as nat);
    }
}

pub proof fn lemma_be_value_bound(s: Seq<u8>)
    ensures
        be_value(s) < pow256(s.len()),
    decreases s.len(),
{
    if s.len() > 0 {
        lemma_be_value_bound(s.drop_last());
    }
}

/// Reading back `n` big-endian bytes of a number below `256^n` gives the number.
pub proof fn lemma_be_roundtrip(v: nat, n: nat)
    requires
        v < pow256(n),
    ensures
        be_bytes(v, n).len() == n,
        be_value(be_bytes(v, n)) == v,
    decreases n,
{
    lemma_be_bytes_len(v, n);
    if n > 0 {
        lemma_be_roundtrip(v / 256, (n - 1) as nat);
        assert(be_bytes(v, n).drop_last() =~= be_bytes(v / 256, (n - 1) as nat));
    }
}

/// Writing back the number that `n` bytes denote gives the bytes.
pub proof fn lemma_be_value_bytes(s: Seq<u8>)
    ensures
        be_bytes(be_value(s), s.len()) == s,
    decreases s.len(),
{
    if s.len() > 0 {
        lemma_be_value_bytes(s.drop_last());
        let v = be_value(s);
        assert(v / 256 == be_value(s.drop_last()));
        assert((v % 256) as u8 == s.last());
        assert(be_bytes(v, s.len()) =~= s);
    }
}

pub proof fn lemma_u64_roundtrip(v: u64)
    ensures
        u64_be(v).len() == 8,
        read_u64(u64_be(v)) == v,
{
    lemma_pow256_8();
    lemma_be_roundtrip(v as nat, 8);
}

pub proof fn lemma_i64_roundtrip(v: i64)
    ensures
        i64_be(v).len() == 8,
        read_i64(i64_be(v)) == v,
{
    lemma_pow256_8();
    lemma_be_roundtrip(i64_bits(v as int), 8);
}

/// Eight bytes read as a `u64` and written back are the same bytes.
pub proof fn lemma_u64_canonical(b: Seq<u8>)
    requires
        b.len() == 8,
    ensures
        u64_be(read_u64(b)) == b,
{
    lemma_be_value_bound(b);
    lemma_pow256_8();
    lemma_be_value_bytes(b);
}

/// Eight bytes read as an `i64` and written back are the same bytes.
pub proof fn lemma_i64_canonical(b: Seq<u8>)
    requires
        b.len() == 8,
    ensures
        i64_be(read_i64(b)) == b,
{
    lemma_be_value_bound(b);
    lemma_pow256_8();
    lemma_be_value_bytes(b);
    assert(i64_bits(bits_i64(be_value(b)) as i64 as int) == be_value(b));
}

fn push_be(buf: &mut Vec<u8>, v: u64, n: usize)
    requires
        n <= 8,
    ensures
        final(buf)@ == old(buf)@ + be_bytes(v as nat, n as nat),
    decreases n,
{
    if n > 0 {
        push_be(buf, v / 256, n - 1);
        buf.push((v % 256) as u8);
        proof {
            assert(final(buf)@ =~= old(buf)@ + be_bytes(v as nat, n as nat));
        }
    } else {
        proof {
            assert(final(buf)@ =~= old(buf)@ + be_bytes(v as nat, n as nat));
        }
    }
}

/// Append the eight big-endian bytes of `v`.
pub fn push_u64_be(buf: &mut Vec<u8>, v: u64)
    ensures
        final(buf)@ == old(buf)@ + u64_be(v),
        u64_be(v).len() == 8,
{
    proof { lemma_be_bytes_len(v as nat, 8); }
    push_be(buf, v, 8);
}

/// Append the eight big-endian two's-complement bytes of `v`.
pub fn push_i64_be(buf: &mut Vec<u8>, v: i64)
    ensures
        final(buf)@ == old(buf)@ + i64_be(v),
        i64_be(v).len() == 8,
{
    let bits: u64 = if v >= 0 {
        v as u64
    } else {
        ((v + 1 + i64::MAX) as u64) + 0x8000_0000_0000_0000u64
    };
    proof { lemma_be_bytes_len(i64_bits(v as int), 8); }
    push_be(buf, bits, 8);
}

/// The `u64` in the eight big-endian bytes at `start`.
pub fn get_u64_be(bytes: &[u8], start: usize) -> (r: u64)
    requires
        start + 8 <= bytes@.len(),
    ensures
        r == read_u64(bytes@.subrange(start as int, start + 8)),
        r as nat == be_value(bytes@.subrange(start as int, start + 8)),
{
    let mut acc: u64 = 0;
    let mut i: usize = 0;
    while i < 8
        invariant
            i <= 8,
            start + 8 <= bytes.len(),
            acc as nat == be_value(bytes@.subrange(start as int, start + i)),
            acc < pow256(i as nat),
        decreases 8 - i,
    {
        proof {
            lemma_pow256_8();
            lemma_pow256_mono(i as nat, 7);
        }
        let b = bytes[start + i];
        let ghost prev = bytes@.subrange(start as int, start + i);
        assert(bytes@.subrange(start as int, start + i + 1).drop_last() =~= prev);
        acc = acc * 256 + b as u64;
        i = i + 1;
    }
    proof { lemma_be_value_bound(bytes@.subrange(start as int, start + 8)); lemma_pow256_8(); }
    acc
}

/// The `i64` in the eight big-endian two's-complement bytes at `start`.
pub fn get_i64_be(bytes: &[u8], start: usize) -> (r: i64)
    requires
        start + 8 <= bytes@.len(),
    ensures
        r == read_i64(bytes@.subrange(start as int, start + 8)),
{
    let u = get_u64_be(bytes, start);
    if u < 0x8000_0000_0000_0000u64 {
        u as i64
    } else {
        ((u - 0x8000_0000_0000_0000u64) as i64) - i64::MAX - 1
    }
}

} // verus!
