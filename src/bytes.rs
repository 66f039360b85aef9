//! Little-endian encodings of the fixed-width integers and flags used by the wire formats.

use vstd::prelude::*;

verus! {

/// The four little-endian bytes of `n`.
pub open spec fn u32_le(n: u32) -> Seq<u8> {
    seq![
        (n & 0xff) as u8,
        ((n >> 8u32) & 0xff) as u8,
        ((n >> 16u32) & 0xff) as u8,
        ((n >> 24u32) & 0xff) as u8,
    ]
}

/// The `u32` whose little-endian bytes are `b0, b1, b2, b3`.
pub open spec fn u32_from_le(b0: u8, b1: u8, b2: u8, b3: u8) -> u32 {
    (b0 as u32) | ((b1 as u32) << 8u32) | ((b2 as u32) << 16u32) | ((b3 as u32) << 24u32)
}

/// The one byte that encodes a flag.
pub open spec fn bool_byte(b: bool) -> u8 {
    if b {
        1u8
    } else {
        0u8
    }
}

/// Decoding the four bytes of `n` gives `n` back.
pub proof fn lemma_u32_le_round_trip(n: u32)
    ensures
        u32_from_le(u32_le(n)[0], u32_le(n)[1], u32_le(n)[2], u32_le(n)[3]) == n,
{
    assert(u32_from_le(
        (n & 0xff) as u8,
        ((n >> 8u32) & 0xff) as u8,
        ((n >> 16u32) & 0xff) as u8,
        ((n >> 24u32) & 0xff) as u8,
    ) == n) by (bit_vector);
}

/// Appends the four little-endian bytes of `n`.
pub fn write_u32(out: &mut Vec<u8>, n: u32)
    ensures
        final(out)@ == old(out)@ + u32_le(n),
{
    out.push((n & 0xff) as u8);
    out.push(((n >> 8u32) & 0xff) as u8);
    out.push(((n >> 16u32) & 0xff) as u8);
    out.push(((n >> 24u32) & 0xff) as u8);
    assert(out@ =~= old(out)@ + u32_le(n));
}

/// Appends the one byte of a flag.
pub fn write_bool(out: &mut Vec<u8>, b: bool)
    ensures
        final(out)@ == old(out)@.push(bool_byte(b)),
{
    out.push(if b { 1u8 } else { 0u8 });
}

/// Reads a little-endian `u32` at `pos`; `None` when fewer than four bytes remain.
pub fn read_u32(bytes: &[u8], pos: usize) -> (r: Option<u32>)
    ensures
        pos + 4 <= bytes@.len() ==> r == Some(
            u32_from_le(bytes@[pos as int], bytes@[pos + 1], bytes@[pos + 2], bytes@[pos + 3]),
        ),
        pos + 4 > bytes@.len() ==> r is None,
{
    if pos > bytes.len() || bytes.len() - pos < 4 {
        return None;
    }
    let b0 = bytes[pos];
    let b1 = bytes[pos + 1];
    let b2 = bytes[pos + 2];
    let b3 = bytes[pos + 3];
    Some((b0 as u32) | ((b1 as u32) << 8u32) | ((b2 as u32) << 16u32) | ((b3 as u32) << 24u32))
}

/// Reads a flag at `pos`: byte 0 is `false`, byte 1 is `true`, any other byte or the end
/// of the input is `None`.
pub fn read_bool(bytes: &[u8], pos: usize) -> (r: Option<bool>)
    ensures
        r == (if pos < bytes@.len() && bytes@[pos as int] == 0 {
            Some(false)
        } else if pos < bytes@.len() && bytes@[pos as int] == 1 {
            Some(true)
        } else {
            None::<bool>
        }),
{
    if pos >= bytes.len() {
        None
    } else if bytes[pos] == 0 {
        Some(false)
    } else if bytes[pos] == 1 {
        Some(true)
    } else {
        None
    }
}

/// `x` comes strictly before `y` in lexicographic order of bytes.
pub open spec fn bytes_lt(x: Seq<u8>, y: Seq<u8>) -> bool
    decreases x.len(),
{
    if x.len() == 0 {
        y.len() > 0
    } else if y.len() == 0 {
        false
    } else if x[0] != y[0] {
        x[0] < y[0]
    } else {
        bytes_lt(x.drop_first(), y.drop_first())
    }
}

/// Exactly one of `x < y`, `x == y`, `y < x` holds.
pub proof fn lemma_bytes_trichotomy(x: Seq<u8>, y: Seq<u8>)
    ensures
        bytes_lt(x, y) || x == y || bytes_lt(y, x),
        !(bytes_lt(x, y) && bytes_lt(y, x)),
        !(bytes_lt(x, y) && x == y),
    decreases x.len(),
{
    if x.len() > 0 && y.len() > 0 && x[0] == y[0] {
        lemma_bytes_trichotomy(x.drop_first(), y.drop_first());
        if x.drop_first() == y.drop_first() {
            assert(x =~= seq![x[0]] + x.drop_first());
            assert(y =~= seq![y[0]] + y.drop_first());
        }
    }
    if x.len() == 0 && y.len() == 0 {
        assert(x =~= y);
    }
}

/// Lexicographic order is transitive.
pub proof fn lemma_bytes_transitive(x: Seq<u8>, y: Seq<u8>, z: Seq<u8>)
    requires
        bytes_lt(x, y),
        bytes_lt(y, z),
    ensures
        bytes_lt(x, z),
    decreases x.len(),
{
    if x.len() > 0 && y.len() > 0 && z.len() > 0 && x[0] == y[0] && y[0] == z[0] {
        lemma_bytes_transitive(x.drop_first(), y.drop_first(), z.drop_first());
    }
}

proof fn lemma_bytes_lt_at(x: Seq<u8>, y: Seq<u8>, i: int)
    requires
        0 <= i <= x.len(),
        i <= y.len(),
        x.subrange(0, i) == y.subrange(0, i),
    ensures
        bytes_lt(x, y) == bytes_lt(x.subrange(i, x.len() as int), y.subrange(i, y.len() as int)),
    decreases i,
{
    if i > 0 {
        assert(x[0] == x.subrange(0, i)[0]);
        assert(y[0] == y.subrange(0, i)[0]);
        let (x1, y1) = (x.drop_first(), y.drop_first());
        assert(x1.subrange(0, i - 1) =~= x.subrange(0, i).drop_first());
        assert(y1.subrange(0, i - 1) =~= y.subrange(0, i).drop_first());
        lemma_bytes_lt_at(x1, y1, i - 1);
        assert(x1.subrange(i - 1, x1.len() as int) =~= x.subrange(i, x.len() as int));
        assert(y1.subrange(i - 1, y1.len() as int) =~= y.subrange(i, y.len() as int));
    } else {
        assert(x.subrange(0, x.len() as int) =~= x);
        assert(y.subrange(0, y.len() as int) =~= y);
    }
}

/// Compares two byte strings lexicographically: -1, 0 or 1 as `a` is before, equal to
/// or after `b`.
pub fn compare_bytes(a: &[u8], b: &[u8]) -> (r: i8)
    ensures
        r == -1 <==> bytes_lt(a@, b@),
        r == 0 <==> a@ == b@,
        r == 1 <==> bytes_lt(b@, a@),
        r == -1 || r == 0 || r == 1,
{
    proof {
        lemma_bytes_trichotomy(a@, b@);
    }
    let mut i: usize = 0;
    while i < a.len() && i < b.len() && a[i] == b[i]
        invariant
            i <= a@.len(),
            i <= b@.len(),
            a@.subrange(0, i as int) == b@.subrange(0, i as int),
        decreases a@.len() - i,
    {
        assert(a@.subrange(0, i + 1) =~= a@.subrange(0, i as int).push(a@[i as int]));
        assert(b@.subrange(0, i + 1) =~= b@.subrange(0, i as int).push(b@[i as int]));
        i = i + 1;
    }
    proof {
        lemma_bytes_lt_at(a@, b@, i as int);
        lemma_bytes_lt_at(b@, a@, i as int);
    }
    let ghost ra = a@.subrange(i as int, a@.len() as int);
    let ghost rb = b@.subrange(i as int, b@.len() as int);
    if i == a.len() && i == b.len() {
        assert(a@ =~= a@.subrange(0, i as int));
        assert(b@ =~= b@.subrange(0, i as int));
        0
    } else if i == a.len() {
        assert(ra.len() == 0);
        -1
    } else if i == b.len() {
        assert(rb.len() == 0);
        1
    } else if a[i] < b[i] {
        assert(ra[0] == a@[i as int] && rb[0] == b@[i as int]);
        -1
    } else {
        assert(ra[0] == a@[i as int] && rb[0] == b@[i as int]);
        1
    }
}

} // verus!
