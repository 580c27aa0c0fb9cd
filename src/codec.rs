//! Big-endian integer encoding and the byte-string order of the engine.

use vstd::prelude::*;

verus! {

/// The eight big-endian bytes of `x`.
pub open spec fn be64(x: u64) -> Seq<u8> {
    seq![
        (x >> 56u64) as u8,
        (x >> 48u64) as u8,
        (x >> 40u64) as u8,
        (x >> 32u64) as u8,
        (x >> 24u64) as u8,
        (x >> 16u64) as u8,
        (x >> 8u64) as u8,
        x as u8,
    ]
}

/// The integer read from the first eight bytes of `s`, most significant first.
pub open spec fn from_be64(s: Seq<u8>) -> u64
    recommends
        s.len() >= 8,
{
    (s[0] as u64) << 56u64 | (s[1] as u64) << 48u64 | (s[2] as u64) << 40u64 | (s[3] as u64)
        << 32u64 | (s[4] as u64) << 24u64 | (s[5] as u64) << 16u64 | (s[6] as u64) << 8u64 | (
    s[7] as u64)
}

/// Reading back eight encoded bytes gives the integer again.
pub proof fn lemma_be64_roundtrip(x: u64)
    ensures
        from_be64(be64(x)) == x,
        be64(x).len() == 8,
{
    assert(((((x >> 56u64) as u8) as u64) << 56u64 | (((x >> 48u64) as u8) as u64) << 48u64 | (((x
        >> 40u64) as u8) as u64) << 40u64 | (((x >> 32u64) as u8) as u64) << 32u64 | (((x
        >> 24u64) as u8) as u64) << 24u64 | (((x >> 16u64) as u8) as u64) << 16u64 | (((x
        >> 8u64) as u8) as u64) << 8u64 | ((x as u8) as u64)) == x) by (bit_vector);
}

/// Distinct integers have distinct encodings.
pub proof fn lemma_be64_injective(x: u64, y: u64)
    ensures
        be64(x) == be64(y) <==> x == y,
{
    lemma_be64_roundtrip(x);
    lemma_be64_roundtrip(y);
}

/// Appends the big-endian bytes of `x` to `buf`.
pub fn put_u64(buf: &mut Vec<u8>, x: u64)
    ensures
        final(buf)@ == old(buf)@ + be64(x),
{
    buf.push((x >> 56u64) as u8);
    buf.push((x >> 48u64) as u8);
    buf.push((x >> 40u64) as u8);
    buf.push((x >> 32u64) as u8);
    buf.push((x >> 24u64) as u8);
    buf.push((x >> 16u64) as u8);
    buf.push((x >> 8u64) as u8);
    buf.push(x as u8);
    assert(buf@ =~= old(buf)@ + be64(x));
}

/// Reads eight big-endian bytes of `s` starting at `at`.
pub fn get_u64(s: &[u8], at: usize) -> (r: u64)
    requires
        at + 8 <= s@.len(),
    ensures
        r == from_be64(s@.subrange(at as int, at + 8)),
{
    (s[at] as u64) << 56u64 | (s[at + 1] as u64) << 48u64 | (s[at + 2] as u64) << 40u64 | (s[at
        + 3] as u64) << 32u64 | (s[at + 4] as u64) << 24u64 | (s[at + 5] as u64) << 16u64 | (s[at
        + 6] as u64) << 8u64 | (s[at + 7] as u64)
}

} // verus!

verus! {

/// The engine's order on keys: byte by byte, a proper prefix first.
pub open spec fn lex_lt(a: Seq<u8>, b: Seq<u8>) -> bool {
    lex_lt_from(a, b, 0)
}

/// `lex_lt` on what follows the first `i` bytes, those being equal.
pub open spec fn lex_lt_from(a: Seq<u8>, b: Seq<u8>, i: nat) -> bool
    decreases a.len() - i,
{
    if i >= a.len() {
        b.len() > i
    } else if i >= b.len() {
        false
    } else if a[i as int] != b[i as int] {
        a[i as int] < b[i as int]
    } else {
        lex_lt_from(a, b, i + 1)
    }
}

proof fn lemma_between_keeps_prefix_from(
    prefix: Seq<u8>,
    lower: Seq<u8>,
    upper: Seq<u8>,
    k: Seq<u8>,
    i: nat,
)
    requires
        prefix.is_prefix_of(lower),
        prefix.is_prefix_of(upper),
        i <= prefix.len(),
        i <= k.len(),
        forall|j: int| 0 <= j < i ==> k[j] == prefix[j],
        !lex_lt_from(k, lower, i),
        !lex_lt_from(upper, k, i),
    ensures
        prefix.is_prefix_of(k),
    decreases prefix.len() - i,
{
    if i < prefix.len() {
        assert(lower[i as int] == prefix[i as int]);
        assert(upper[i as int] == prefix[i as int]);
        assert(k.len() > i);
        assert(k[i as int] == prefix[i as int]);
        lemma_between_keeps_prefix_from(prefix, lower, upper, k, i + 1);
    }
}

/// A key that lies between two keys sharing a prefix shares it too.
pub proof fn lemma_between_keeps_prefix(prefix: Seq<u8>, lower: Seq<u8>, upper: Seq<u8>, k: Seq<u8>)
    requires
        prefix.is_prefix_of(lower),
        prefix.is_prefix_of(upper),
        !lex_lt(k, lower),
        !lex_lt(upper, k),
    ensures
        prefix.is_prefix_of(k),
{
    lemma_between_keeps_prefix_from(prefix, lower, upper, k, 0);
}

/// The first `i` bytes being equal, the order of two sequences is that of
/// what follows them.
proof fn lemma_lex_skip(a: Seq<u8>, b: Seq<u8>, i: nat)
    requires
        i <= a.len(),
        i <= b.len(),
        forall|j: int| 0 <= j < i ==> a[j] == b[j],
    ensures
        lex_lt(a, b) == lex_lt_from(a, b, i),
    decreases i,
{
    if i > 0 {
        lemma_lex_skip(a, b, (i - 1) as nat);
    }
}

/// Big-endian encoding turns the order of integers into the order of keys.
pub proof fn lemma_be64_order(a: u64, b: u64)
    ensures
        lex_lt(be64(a), be64(b)) <==> a < b,
{
    let s = be64(a);
    let t = be64(b);
    reveal_with_fuel(lex_lt_from, 9);
    assert(((a >> 56u64) as u8) < ((b >> 56u64) as u8) || (((a >> 56u64) as u8) == ((b >> 56u64) as u8) && (
    ((a >> 48u64) as u8) < ((b >> 48u64) as u8) || (((a >> 48u64) as u8) == ((b >> 48u64) as u8) && (
    ((a >> 40u64) as u8) < ((b >> 40u64) as u8) || (((a >> 40u64) as u8) == ((b >> 40u64) as u8) && (
    ((a >> 32u64) as u8) < ((b >> 32u64) as u8) || (((a >> 32u64) as u8) == ((b >> 32u64) as u8) && (
    ((a >> 24u64) as u8) < ((b >> 24u64) as u8) || (((a >> 24u64) as u8) == ((b >> 24u64) as u8) && (
    ((a >> 16u64) as u8) < ((b >> 16u64) as u8) || (((a >> 16u64) as u8) == ((b >> 16u64) as u8) && (
    ((a >> 8u64) as u8) < ((b >> 8u64) as u8) || (((a >> 8u64) as u8) == ((b >> 8u64) as u8) && (
    (a as u8) < (b as u8))))))))))))))) <==> a < b) by (bit_vector);
}

/// Among keys of the same length that share their first `i` bytes, the order
/// of two keys is that of their big-endian integers at `i`.
pub proof fn lemma_keys_order(a: Seq<u8>, b: Seq<u8>, i: nat)
    requires
        a.len() == i + 8,
        b.len() == i + 8,
        forall|j: int| 0 <= j < i ==> a[j] == b[j],
    ensures
        lex_lt(a, b) <==> from_be64(a.subrange(i as int, i + 8int)) < from_be64(
            b.subrange(i as int, i + 8int),
        ),
{
    let x = from_be64(a.subrange(i as int, i + 8int));
    let y = from_be64(b.subrange(i as int, i + 8int));
    lemma_be64_of_bytes(a.subrange(i as int, i + 8int));
    lemma_be64_of_bytes(b.subrange(i as int, i + 8int));
    lemma_be64_order(x, y);
    lemma_lex_skip(a, b, i);
    assert(a.subrange(i as int, a.len() as int) =~= be64(x).subrange(0, 8));
    assert(b.subrange(i as int, b.len() as int) =~= be64(y).subrange(0, 8));
    lemma_lex_from_shift(a, b, be64(x), be64(y), i, 0);
}

/// Eight bytes are the encoding of the integer they are read as.
pub proof fn lemma_be64_of_bytes(s: Seq<u8>)
    requires
        s.len() == 8,
    ensures
        be64(from_be64(s)) == s,
{
    let (b0, b1, b2, b3, b4, b5, b6, b7) = (s[0], s[1], s[2], s[3], s[4], s[5], s[6], s[7]);
    let x = from_be64(s);
    assert((x >> 56u64) as u8 == b0 && (x >> 48u64) as u8 == b1 && (x >> 40u64) as u8 == b2 && (x
        >> 32u64) as u8 == b3 && (x >> 24u64) as u8 == b4 && (x >> 16u64) as u8 == b5 && (x
        >> 8u64) as u8 == b6 && x as u8 == b7) by (bit_vector)
        requires
            x == (b0 as u64) << 56u64 | (b1 as u64) << 48u64 | (b2 as u64) << 40u64 | (b3 as u64)
                << 32u64 | (b4 as u64) << 24u64 | (b5 as u64) << 16u64 | (b6 as u64) << 8u64 | (
            b7 as u64),
    ;
    assert(be64(x) =~= s);
}

/// Comparing from `i` in `a`, `b` is comparing from `j` in `c`, `d` when what
/// follows is the same.
proof fn lemma_lex_from_shift(a: Seq<u8>, b: Seq<u8>, c: Seq<u8>, d: Seq<u8>, i: nat, j: nat)
    requires
        i <= a.len(),
        i <= b.len(),
        j <= c.len(),
        j <= d.len(),
        a.subrange(i as int, a.len() as int) == c.subrange(j as int, c.len() as int),
        b.subrange(i as int, b.len() as int) == d.subrange(j as int, d.len() as int),
    ensures
        lex_lt_from(a, b, i) == lex_lt_from(c, d, j),
    decreases a.len() - i,
{
    let sa = a.subrange(i as int, a.len() as int);
    let sb = b.subrange(i as int, b.len() as int);
    let sc = c.subrange(j as int, c.len() as int);
    let sd = d.subrange(j as int, d.len() as int);
    assert(sa.len() == sc.len());
    assert(sb.len() == sd.len());
    if i < a.len() && i < b.len() {
        assert(a[i as int] == sa[0]);
        assert(c[j as int] == sc[0]);
        assert(b[i as int] == sb[0]);
        assert(d[j as int] == sd[0]);
        if a[i as int] == b[i as int] {
            assert(a.subrange(i + 1int, a.len() as int) =~= sa.subrange(1, sa.len() as int));
            assert(c.subrange(j + 1int, c.len() as int) =~= sc.subrange(1, sc.len() as int));
            assert(b.subrange(i + 1int, b.len() as int) =~= sb.subrange(1, sb.len() as int));
            assert(d.subrange(j + 1int, d.len() as int) =~= sd.subrange(1, sd.len() as int));
            lemma_lex_from_shift(a, b, c, d, i + 1, j + 1);
        }
    }
}

} // verus!
