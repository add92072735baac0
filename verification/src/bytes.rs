//! Byte strings: little-endian integers, fixed arrays and comparison.

use vstd::prelude::*;
use vstd::slice::slice_subrange;

verus! {

/// The natural number that a byte string encodes, least significant byte first.
pub open spec fn le_value(s: Seq<u8>) -> nat
    decreases s.len(),
{
    if s.len() == 0 {
        0
    } else {
        s[0] as nat + 256 * le_value(s.drop_first())
    }
}

/// The `n` low bytes of `x`, least significant byte first.
pub open spec fn le_bytes(x: nat, n: nat) -> Seq<u8>
    decreases n,
{
    if n == 0 {
        Seq::empty()
    } else {
        seq![(x % 256) as u8] + le_bytes(x / 256, (n - 1) as nat)
    }
}

/// `256^n`.
pub open spec fn pow256(n: nat) -> nat
    decreases n,
{
    if n == 0 {
        1
    } else {
        256 * pow256((n - 1) as nat)
    }
}

/// The numbers that fit in two, four and eight bytes.
pub proof fn lemma_pow256()
    ensures
        pow256(2) == 65536,
        pow256(4) == 4294967296,
        pow256(8) == 18446744073709551616,
{
    reveal_with_fuel(pow256, 9);
}

/// An encoding has as many bytes as asked for.
pub proof fn lemma_le_bytes_len(x: nat, n: nat)
    ensures
        le_bytes(x, n).len() == n,
    decreases n,
{
    if n > 0 {
        lemma_le_bytes_len(x / 256, (n - 1) as nat);
    }
}

/// A number that fits in `n` bytes is what its `n`-byte encoding encodes.
pub proof fn lemma_le_value_of_bytes(x: nat, n: nat)
    requires
        x < pow256(n),
    ensures
        le_value(le_bytes(x, n)) == x,
        le_bytes(x, n).len() == n,
    decreases n,
{
    if n > 0 {
        lemma_le_value_of_bytes(x / 256, (n - 1) as nat);
        let tail = le_bytes(x / 256, (n - 1) as nat);
        assert(le_bytes(x, n).drop_first() =~= tail);
        assert(le_bytes(x, n)[0] == (x % 256) as u8);
    }
}

/// Encoding the number that a byte string encodes gives the byte string back.
pub proof fn lemma_le_bytes_of_value(s: Seq<u8>)
    ensures
        le_bytes(le_value(s), s.len()) == s,
        le_value(s) < pow256(s.len()),
    decreases s.len(),
{
    if s.len() > 0 {
        let t = s.drop_first();
        lemma_le_bytes_of_value(t);
        let v = le_value(s);
        assert(v % 256 == s[0] as nat && v / 256 == le_value(t)) by (nonlinear_arith)
            requires
                v == s[0] as nat + 256 * le_value(t),
                (s[0] as nat) < 256,
        ;
        assert(seq![s[0]] + t =~= s);
    } else {
        assert(le_bytes(0, 0) =~= s);
    }
}

/// Eight bytes are four low bytes and four high bytes.
proof fn lemma_le_bytes_halves(x: u64)
    ensures
        le_bytes(x as nat, 8) == le_bytes((x % 4294967296) as nat, 4) + le_bytes(
            (x / 4294967296) as nat,
            4,
        ),
{
    reveal_with_fuel(le_bytes, 5);
    let n = x as nat;
    assert(n / 256 / 256 / 256 / 256 == n / 4294967296);
    let lo = n % 4294967296;
    assert(lo / 256 / 256 / 256 / 256 == 0);
    assert(n % 256 == lo % 256);
    assert(n / 256 % 256 == lo / 256 % 256);
    assert(n / 256 / 256 % 256 == lo / 256 / 256 % 256);
    assert(n / 256 / 256 / 256 % 256 == lo / 256 / 256 / 256 % 256);
    assert(le_bytes(n, 8) =~= le_bytes(lo, 4) + le_bytes(n / 4294967296, 4));
}

/// The number that eight bytes encode is that of its halves.
proof fn lemma_le_value_halves(s: Seq<u8>)
    requires
        s.len() == 8,
    ensures
        le_value(s) == le_value(s.subrange(0, 4)) + 4294967296 * le_value(s.subrange(4, 8)),
{
    reveal_with_fuel(le_value, 5);
    assert(s.drop_first().drop_first().drop_first().drop_first() =~= s.subrange(4, 8));
}

/// Copies a slice of known length into an array.
pub fn copy_arr<const N: usize>(slice: &[u8]) -> (out: [u8; N])
    requires
        slice@.len() == N,
    ensures
        out@ == slice@,
{
    let mut out: [u8; N] = [0u8; N];
    let mut i: usize = 0;
    while i < N
        invariant
            i <= N,
            slice@.len() == N,
            forall|j: int| 0 <= j < i ==> out@[j] == slice@[j],
        decreases N - i,
    {
        out[i] = slice[i];
        i += 1;
    }
    assert(out@ =~= slice@);
    out
}

/// Whether two byte strings are equal.
pub fn bytes_eq(a: &[u8], b: &[u8]) -> (r: bool)
    ensures
        r == (a@ == b@),
{
    if a.len() != b.len() {
        return false;
    }
    let mut i: usize = 0;
    while i < a.len()
        invariant
            i <= a@.len(),
            a@.len() == b@.len(),
            forall|j: int| 0 <= j < i ==> a@[j] == b@[j],
        decreases a@.len() - i,
    {
        if a[i] != b[i] {
            return false;
        }
        i += 1;
    }
    assert(a@ =~= b@);
    true
}

/// Whether two arrays are equal.
pub fn arr_eq<const N: usize>(a: &[u8; N], b: &[u8; N]) -> (r: bool)
    ensures
        r == (*a == *b),
        r == (a@ == b@),
{
    let r = bytes_eq(a.as_slice(), b.as_slice());
    proof {
        if a@ == b@ {
            assert forall|i: int| 0 <= i < N implies a[i] == b[i] by {
                assert(a@[i] == b@[i]);
            }
            assert(*a =~= *b);
        }
    }
    r
}

/// Arrays with the same contents are equal.
pub proof fn lemma_arr_ext<const N: usize>(a: [u8; N], b: [u8; N])
    requires
        a@ == b@,
    ensures
        a == b,
{
    assert forall|i: int| 0 <= i < N implies a[i] == b[i] by {
        assert(a@[i] == b@[i]);
    }
    assert(a =~= b);
}

/// The `N` bytes at a position.
pub fn get_arr<const N: usize>(s: &[u8], at: usize) -> (out: [u8; N])
    requires
        at + N <= s@.len(),
    ensures
        out@ == s@.subrange(at as int, at + N),
{
    assert(s@.len() == s.len());
    copy_arr(slice_subrange(s, at, at + N))
}

/// Appends a slice.
pub fn append(v: &mut Vec<u8>, s: &[u8])
    ensures
        final(v)@ == old(v)@ + s@,
{
    let ghost before = v@;
    v.extend_from_slice(s);
    assert(v@ =~= before + s@);
}

/// `n` zero bytes.
pub open spec fn zeros(n: nat) -> Seq<u8> {
    Seq::new(n, |i: int| 0u8)
}

/// Appends `n` zero bytes.
pub fn put_zeros(v: &mut Vec<u8>, n: usize)
    ensures
        final(v)@ == old(v)@ + zeros(n as nat),
{
    let ghost before = v@;
    let mut i: usize = 0;
    while i < n
        invariant
            i <= n,
            v@ == before + zeros(i as nat),
        decreases n - i,
    {
        v.push(0);
        i += 1;
        assert(v@ =~= before + zeros(i as nat));
    }
}

/// Appends the two bytes of `x`.
pub fn put_u16(v: &mut Vec<u8>, x: u16)
    ensures
        final(v)@ == old(v)@ + le_bytes(x as nat, 2),
{
    let ghost before = v@;
    v.push((x % 256) as u8);
    v.push((x / 256) as u8);
    proof {
        reveal_with_fuel(le_bytes, 3);
        assert(v@ =~= before + le_bytes(x as nat, 2));
    }
}

/// Appends the four bytes of `x`.
pub fn put_u32(v: &mut Vec<u8>, x: u32)
    ensures
        final(v)@ == old(v)@ + le_bytes(x as nat, 4),
{
    let ghost before = v@;
    v.push((x % 256) as u8);
    v.push(((x / 256) % 256) as u8);
    v.push(((x / 65536) % 256) as u8);
    v.push((x / 16777216) as u8);
    proof {
        reveal_with_fuel(le_bytes, 5);
        assert(v@ =~= before + le_bytes(x as nat, 4));
    }
}

/// Appends the eight bytes of `x`.
pub fn put_u64(v: &mut Vec<u8>, x: u64)
    ensures
        final(v)@ == old(v)@ + le_bytes(x as nat, 8),
{
    let ghost before = v@;
    put_u32(v, (x % 4294967296) as u32);
    put_u32(v, (x / 4294967296) as u32);
    proof {
        lemma_le_bytes_halves(x);
        assert(v@ =~= before + le_bytes(x as nat, 8));
    }
}

/// The number that two bytes encode.
pub fn get_u16(s: &[u8], at: usize) -> (x: u16)
    requires
        at + 2 <= s@.len(),
    ensures
        x as nat == le_value(s@.subrange(at as int, at + 2)),
{
    proof {
        reveal_with_fuel(le_value, 3);
    }
    s[at] as u16 + 256 * (s[at + 1] as u16)
}

/// The number that four bytes encode.
pub fn get_u32(s: &[u8], at: usize) -> (x: u32)
    requires
        at + 4 <= s@.len(),
    ensures
        x as nat == le_value(s@.subrange(at as int, at + 4)),
{
    proof {
        reveal_with_fuel(le_value, 5);
    }
    s[at] as u32 + 256 * (s[at + 1] as u32) + 65536 * (s[at + 2] as u32) + 16777216 * (s[at
        + 3] as u32)
}

/// The number that eight bytes encode.
pub fn get_u64(s: &[u8], at: usize) -> (x: u64)
    requires
        at + 8 <= s@.len(),
    ensures
        x as nat == le_value(s@.subrange(at as int, at + 8)),
{
    assert(s@.len() == s.len());
    let part = slice_subrange(s, at, at + 8);
    let lo = get_u32(part, 0);
    let hi = get_u32(part, 4);
    proof {
        lemma_le_value_halves(part@);
    }
    lo as u64 + 4294967296 * (hi as u64)
}

} // verus!
