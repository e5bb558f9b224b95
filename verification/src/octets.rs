//! Helpers on byte sequences: copying, equality, lexicographic order and
//! big-endian integers.

use vstd::prelude::*;
use vstd::slice::{slice_subrange, slice_to_vec};

verus! {

/// Whether two byte slices hold the same bytes.
pub fn same_bytes(a: &[u8], b: &[u8]) -> (r: bool)
    ensures
        r == (a@ == b@),
{
    if a.len() != b.len() {
        return false;
    }
    let mut i: usize = 0;
    while i < a.len()
        invariant
            i <= a.len(),
            a.len() == b.len(),
            forall|j: int| 0 <= j < i ==> a@[j] == b@[j],
        decreases a.len() - i,
    {
        if a[i] != b[i] {
            return false;
        }
        i = i + 1;
    }
    assert(a@ =~= b@);
    true
}

/// Append a slice to a vector.
pub fn append_bytes(out: &mut Vec<u8>, s: &[u8])
    ensures
        final(out)@ == old(out)@ + s@,
{
    out.extend_from_slice(s);
    assert(out@ =~= old(out)@ + s@);
}

/// A copy of the bytes `from..to` of a slice.
pub fn copy_range(s: &[u8], from: usize, to: usize) -> (r: Vec<u8>)
    requires
        from <= to <= s.len(),
    ensures
        r@ == s@.subrange(from as int, to as int),
{
    slice_to_vec(slice_subrange(s, from, to))
}

/// The 20 bytes that start at `from`.
pub fn array20(s: &[u8], from: usize) -> (r: [u8; 20])
    requires
        from + 20 <= s.len(),
    ensures
        r@ == s@.subrange(from as int, from + 20),
{
    let mut a: [u8; 20] = [0u8; 20];
    let mut i: usize = 0;
    while i < 20
        invariant
            i <= 20,
            from + 20 <= s.len(),
            forall|j: int| 0 <= j < i ==> a@[j] == s@[from + j],
        decreases 20 - i,
    {
        a[i] = s[from + i];
        i = i + 1;
    }
    assert(a@ =~= s@.subrange(from as int, from + 20));
    a
}

/// The number that is left of a length in 32 bits.
pub fn low32(n: u64) -> (r: u32)
    ensures
        r == n as int % 0x1_0000_0000,
        n <= u32::MAX ==> r == n,
{
    assert(n as u32 == n % 0x1_0000_0000) by (bit_vector);
    n as u32
}

// Big-endian integers

/// The big-endian bytes of a 16-bit number.
pub open spec fn be16(n: u16) -> Seq<u8> {
    seq![(n / 0x100) as u8, (n % 0x100) as u8]
}

/// The big-endian bytes of a 32-bit number.
pub open spec fn be32(n: u32) -> Seq<u8> {
    seq![
        (n / 0x1000000) as u8,
        (n / 0x10000 % 0x100) as u8,
        (n / 0x100 % 0x100) as u8,
        (n % 0x100) as u8,
    ]
}

/// The big-endian bytes of a 64-bit number.
pub open spec fn be64(n: u64) -> Seq<u8> {
    be32((n / 0x1_0000_0000) as u32) + be32((n % 0x1_0000_0000) as u32)
}

/// The number whose big-endian bytes stand at `at`.
pub open spec fn from_be16(s: Seq<u8>, at: int) -> u16 {
    (s[at] * 0x100 + s[at + 1]) as u16
}

/// The number whose big-endian bytes stand at `at`.
pub open spec fn from_be32(s: Seq<u8>, at: int) -> u32 {
    (s[at] * 0x1000000 + s[at + 1] * 0x10000 + s[at + 2] * 0x100 + s[at + 3]) as u32
}

/// The number whose big-endian bytes stand at `at`.
pub open spec fn from_be64(s: Seq<u8>, at: int) -> u64 {
    (from_be32(s, at) * 0x1_0000_0000 + from_be32(s, at + 4)) as u64
}

pub fn u16_be(s: &[u8], at: usize) -> (r: u16)
    requires
        at + 2 <= s.len(),
    ensures
        r == from_be16(s@, at as int),
{
    s[at] as u16 * 0x100 + s[at + 1] as u16
}

pub fn u32_be(s: &[u8], at: usize) -> (r: u32)
    requires
        at + 4 <= s.len(),
    ensures
        r == from_be32(s@, at as int),
{
    s[at] as u32 * 0x1000000 + s[at + 1] as u32 * 0x10000 + s[at + 2] as u32 * 0x100
        + s[at + 3] as u32
}

pub fn u64_be(s: &[u8], at: usize) -> (r: u64)
    requires
        at + 8 <= s.len(),
    ensures
        r == from_be64(s@, at as int),
{
    u32_be(s, at) as u64 * 0x1_0000_0000 + u32_be(s, at + 4) as u64
}

/// Append the big-endian bytes of a number.
pub fn append_be16(out: &mut Vec<u8>, n: u16)
    ensures
        final(out)@ == old(out)@ + be16(n),
{
    out.push((n / 0x100) as u8);
    out.push((n % 0x100) as u8);
    assert(out@ =~= old(out)@ + be16(n));
}

/// Append the big-endian bytes of a number.
pub fn append_be32(out: &mut Vec<u8>, n: u32)
    ensures
        final(out)@ == old(out)@ + be32(n),
{
    out.push((n / 0x1000000) as u8);
    out.push((n / 0x10000 % 0x100) as u8);
    out.push((n / 0x100 % 0x100) as u8);
    out.push((n % 0x100) as u8);
    assert(out@ =~= old(out)@ + be32(n));
}

/// Append the big-endian bytes of a number.
pub fn append_be64(out: &mut Vec<u8>, n: u64)
    ensures
        final(out)@ == old(out)@ + be64(n),
{
    append_be32(out, (n / 0x1_0000_0000) as u32);
    append_be32(out, (n % 0x1_0000_0000) as u32);
    assert(out@ =~= old(out)@ + be64(n));
}

/// Reading a number gives back the number that was written.
pub proof fn lemma_be_round_trip(s: Seq<u8>, at: int)
    ensures
        forall|n: u16|
            0 <= at && at + 2 <= s.len() && #[trigger] be16(n) == s.subrange(at, at + 2)
                ==> from_be16(s, at) == n,
        forall|n: u32|
            0 <= at && at + 4 <= s.len() && #[trigger] be32(n) == s.subrange(at, at + 4)
                ==> from_be32(s, at) == n,
        forall|n: u64|
            0 <= at && at + 8 <= s.len() && #[trigger] be64(n) == s.subrange(at, at + 8)
                ==> from_be64(s, at) == n,
{
    assert forall|n: u16|
        0 <= at && at + 2 <= s.len() && #[trigger] be16(n) == s.subrange(at, at + 2) implies from_be16(
        s,
        at,
    ) == n by {
        assert(be16(n)[0] == s[at]);
        assert(be16(n)[1] == s[at + 1]);
    }
    assert forall|n: u32|
        0 <= at && at + 4 <= s.len() && #[trigger] be32(n) == s.subrange(at, at + 4) implies from_be32(
        s,
        at,
    ) == n by {
        lemma_be32_at(s, at, n);
    }
    assert forall|n: u64|
        0 <= at && at + 8 <= s.len() && #[trigger] be64(n) == s.subrange(at, at + 8) implies from_be64(
        s,
        at,
    ) == n by {
        let hi = (n / 0x1_0000_0000) as u32;
        let lo = (n % 0x1_0000_0000) as u32;
        assert(s.subrange(at, at + 4) =~= be64(n).subrange(0, 4));
        assert(s.subrange(at + 4, at + 8) =~= be64(n).subrange(4, 8));
        assert(be64(n).subrange(0, 4) =~= be32(hi));
        assert(be64(n).subrange(4, 8) =~= be32(lo));
        lemma_be32_at(s, at, hi);
        lemma_be32_at(s, at + 4, lo);
    }
}

proof fn lemma_be32_at(s: Seq<u8>, at: int, n: u32)
    requires
        0 <= at,
        at + 4 <= s.len(),
        be32(n) == s.subrange(at, at + 4),
    ensures
        from_be32(s, at) == n,
{
    assert(be32(n)[0] == s[at]);
    assert(be32(n)[1] == s[at + 1]);
    assert(be32(n)[2] == s[at + 2]);
    assert(be32(n)[3] == s[at + 3]);
}

// Lexicographic order

/// Outcome of comparing two byte strings.
#[derive(Debug, Clone, Copy, PartialEq, Eq, Structural)]
pub enum Order {
    Less,
    Equal,
    Greater,
}

/// `a` comes before `b` because of what stands at index `i`.
pub open spec fn differs_at(a: Seq<u8>, b: Seq<u8>, i: int) -> bool {
    &&& 0 <= i <= a.len()
    &&& i < b.len()
    &&& forall|j: int| 0 <= j < i ==> a[j] == b[j]
    &&& i < a.len() ==> a[i] < b[i]
}

/// Lexicographic order on byte strings; a proper prefix comes first.
pub open spec fn precedes(a: Seq<u8>, b: Seq<u8>) -> bool {
    exists|i: int| differs_at(a, b, i)
}

pub proof fn lemma_precedes_irreflexive(a: Seq<u8>)
    ensures
        !precedes(a, a),
{
}

pub proof fn lemma_precedes_transitive(a: Seq<u8>, b: Seq<u8>, c: Seq<u8>)
    requires
        precedes(a, b),
        precedes(b, c),
    ensures
        precedes(a, c),
{
    let i = choose|i: int| differs_at(a, b, i);
    let k = choose|k: int| differs_at(b, c, k);
    if i <= k {
        assert(differs_at(a, c, i));
    } else {
        assert(differs_at(a, c, k));
    }
}

pub proof fn lemma_precedes_asymmetric(a: Seq<u8>, b: Seq<u8>)
    requires
        precedes(a, b),
    ensures
        !precedes(b, a),
        a != b,
{
    if precedes(b, a) {
        lemma_precedes_transitive(a, b, a);
    }
}

pub proof fn lemma_precedes_total(a: Seq<u8>, b: Seq<u8>)
    ensures
        precedes(a, b) || precedes(b, a) || a == b,
{
    lemma_precedes_total_from(a, b, 0);
}

proof fn lemma_precedes_total_from(a: Seq<u8>, b: Seq<u8>, i: int)
    requires
        0 <= i <= a.len(),
        i <= b.len(),
        forall|j: int| 0 <= j < i ==> a[j] == b[j],
    ensures
        precedes(a, b) || precedes(b, a) || a == b,
    decreases a.len() - i,
{
    if i == a.len() || i == b.len() {
        if i < b.len() {
            assert(differs_at(a, b, i));
        } else if i < a.len() {
            assert(differs_at(b, a, i));
        } else {
            assert(a =~= b);
        }
    } else if a[i] < b[i] {
        assert(differs_at(a, b, i));
    } else if b[i] < a[i] {
        assert(differs_at(b, a, i));
    } else {
        lemma_precedes_total_from(a, b, i + 1);
    }
}

/// Compare two byte strings.
pub fn order_bytes(a: &[u8], b: &[u8]) -> (r: Order)
    ensures
        r == Order::Less <==> precedes(a@, b@),
        r == Order::Equal <==> a@ == b@,
        r == Order::Greater <==> precedes(b@, a@),
{
    let mut i: usize = 0;
    while i < a.len() && i < b.len()
        invariant
            i <= a.len(),
            i <= b.len(),
            forall|j: int| 0 <= j < i ==> a@[j] == b@[j],
        decreases a.len() - i,
    {
        if a[i] < b[i] {
            proof {
                assert(differs_at(a@, b@, i as int));
                lemma_precedes_asymmetric(a@, b@);
            }
            return Order::Less;
        }
        if b[i] < a[i] {
            proof {
                assert(differs_at(b@, a@, i as int));
                lemma_precedes_asymmetric(b@, a@);
            }
            return Order::Greater;
        }
        i = i + 1;
    }
    if i < b.len() {
        proof {
            assert(differs_at(a@, b@, i as int));
            lemma_precedes_asymmetric(a@, b@);
        }
        Order::Less
    } else if i < a.len() {
        proof {
            assert(differs_at(b@, a@, i as int));
            lemma_precedes_asymmetric(b@, a@);
        }
        Order::Greater
    } else {
        proof {
            assert(a@ =~= b@);
            lemma_precedes_irreflexive(a@);
        }
        Order::Equal
    }
}

/// The first byte in which two byte strings differ decides which comes first,
/// and the beginning of a byte string comes before it.
pub proof fn lemma_precedes(common: Seq<u8>, x: u8, y: u8, a: Seq<u8>, b: Seq<u8>)
    ensures
        precedes(common.push(x) + a, common.push(y) + b) <== x < y,
        precedes(common, common.push(y) + b),
        !precedes(common.push(y) + b, common),
{
    let s = common.push(x) + a;
    let t = common.push(y) + b;
    let n = common.len() as int;
    if x < y {
        assert(differs_at(s, t, n));
    }
    assert(differs_at(common, t, n));
    lemma_precedes_asymmetric(common, t);
}

/// The most significant byte of a number stands first.
pub proof fn lemma_big_endian(n: u16, m: u32)
    ensures
        be16(n).len() == 2 && be16(n)[0] * 256 + be16(n)[1] == n,
        be32(m).len() == 4 && ((be32(m)[0] * 256 + be32(m)[1]) * 256 + be32(m)[2]) * 256 + be32(
            m,
        )[3] == m,
{
}

} // verus!
