//! Little-endian integers of a fixed width.

use vstd::arithmetic::power::{lemma_pow1, lemma_pow_adds, pow};
use vstd::prelude::*;

verus! {

/// The `width` lowest bytes of `n`, the lowest first.
pub open spec fn le(n: nat, width: nat) -> Seq<u8>
    decreases width,
{
    if width == 0 {
        Seq::empty()
    } else {
        seq![(n % 256) as u8] + le(n / 256, (width - 1) as nat)
    }
}

/// The number that the bytes spell, the lowest first.
pub open spec fn le_value(s: Seq<u8>) -> nat
    decreases s.len(),
{
    if s.len() == 0 {
        0
    } else {
        s[0] as nat + 256 * le_value(s.drop_first())
    }
}

/// A number takes `width` bytes.
pub proof fn lemma_le_len(n: nat, width: nat)
    ensures
        le(n, width).len() == width,
    decreases width,
{
    if width > 0 {
        lemma_le_len(n / 256, (width - 1) as nat);
    }
}

/// Reading back what was written gives the number, where `width` bytes can hold it.
pub proof fn law_le_round_trip(n: nat, width: nat)
    requires
        n < pow(256, width),
    ensures
        le_value(le(n, width)) == n,
    decreases width,
{
    if width == 0 {
        assert(pow(256, 0) == 1) by { reveal(pow) }
    } else {
        let w = (width - 1) as nat;
        assert(pow(256, width) == 256 * pow(256, w)) by { reveal(pow) }
        assert(n / 256 < pow(256, w)) by (nonlinear_arith)
            requires
                n < 256 * pow(256, w),
        ;
        law_le_round_trip(n / 256, w);
        assert(le(n, width).drop_first() =~= le(n / 256, w));
    }
}

/// Bytes are the spelling of the number that they spell.
pub proof fn law_le_value_round_trip(s: Seq<u8>)
    ensures
        le(le_value(s), s.len()) == s,
        le_value(s) < pow(256, s.len()),
    decreases s.len(),
{
    if s.len() == 0 {
        assert(pow(256, 0) == 1) by { reveal(pow) }
        assert(le(le_value(s), 0) =~= s);
    } else {
        let rest = s.drop_first();
        law_le_value_round_trip(rest);
        assert(pow(256, s.len()) == 256 * pow(256, rest.len())) by { reveal(pow) }
        let v = le_value(s);
        assert(v % 256 == s[0] && v / 256 == le_value(rest));
        assert(le(v, s.len()) =~= s);
    }
}

/// The first bound that eight bytes cannot hold, and those of four and two bytes.
pub proof fn lemma_widths()
    ensures
        pow(256, 1) == 0x100,
        pow(256, 2) == 0x1_0000,
        pow(256, 4) == 0x1_0000_0000,
        pow(256, 8) == 0x1_0000_0000_0000_0000,
{
    lemma_pow1(256);
    lemma_pow_adds(256, 1, 1);
    lemma_pow_adds(256, 2, 2);
    lemma_pow_adds(256, 4, 4);
    assert(pow(256, 2) * pow(256, 2) == 0x1_0000_0000) by (nonlinear_arith)
        requires
            pow(256, 2) == 0x1_0000,
    ;
    assert(pow(256, 4) * pow(256, 4) == 0x1_0000_0000_0000_0000) by (nonlinear_arith)
        requires
            pow(256, 4) == 0x1_0000_0000,
    ;
}

/// Appends `n` in `width` bytes.
pub fn push_le(out: &mut Vec<u8>, n: u64, width: usize)
    ensures
        final(out)@ == old(out)@ + le(n as nat, width as nat),
{
    let ghost before = out@;
    let mut rest: u64 = n;
    let mut k: usize = 0;
    while k < width
        invariant
            k <= width,
            out@ + le(rest as nat, (width - k) as nat) == before + le(n as nat, width as nat),
        decreases width - k,
    {
        let ghost here = out@;
        let ghost tail = le(rest as nat, (width - k) as nat);
        out.push((rest % 256) as u8);
        rest = rest / 256;
        k += 1;
        assert(out@ + le(rest as nat, (width - k) as nat) =~= here + tail);
    }
    assert(out@ + le(rest as nat, 0) =~= out@);
}

/// The number that the `width` bytes from `at` on spell.
pub fn read_le(data: &[u8], at: usize, width: usize) -> (n: u64)
    requires
        at + width <= data@.len(),
        width <= 8,
    ensures
        n == le_value(data@.subrange(at as int, at + width)),
{
    let ghost field = data@.subrange(at as int, at + width);
    let mut n: u64 = 0;
    let mut k: usize = width;
    assert(field.skip(width as int) =~= Seq::<u8>::empty());
    while k > 0
        invariant
            k <= width <= 8,
            at + width <= data.len(),
            field == data@.subrange(at as int, at + width),
            n == le_value(field.skip(k as int)),
        decreases k,
    {
        proof {
            let here = field.skip(k - 1);
            assert(here.drop_first() =~= field.skip(k as int));
            law_le_value_round_trip(field.skip(k as int));
            lemma_pow_widens((width - k) as nat);
        }
        k -= 1;
        n = n * 256 + data[at + k] as u64;
    }
    assert(field.skip(0) =~= field);
    n
}

proof fn lemma_pow_widens(width: nat)
    requires
        width <= 7,
    ensures
        pow(256, width) <= 0x100_0000_0000_0000,
{
    reveal_with_fuel(pow, 9);
}

/// Whether two byte strings are the same.
pub fn same_bytes(a: &[u8], b: &[u8]) -> (r: bool)
    ensures
        r == (a@ == b@),
{
    if a.len() != b.len() {
        return false;
    }
    let mut i: usize = 0;
    while i < a.len()
        invariant
            i <= a@.len() == b@.len(),
            forall|k: int| 0 <= k < i ==> a@[k] == b@[k],
        decreases a.len() - i,
    {
        if a[i] != b[i] {
            return false;
        }
        i += 1;
    }
    assert(a@ =~= b@);
    true
}

/// Whether the first byte string comes before the second: by the first byte in which they differ,
/// or as its beginning.
pub open spec fn bytes_before(a: Seq<u8>, b: Seq<u8>) -> bool
    decreases b.len(),
{
    if b.len() == 0 {
        false
    } else if a.len() == 0 {
        true
    } else if a[0] != b[0] {
        a[0] < b[0]
    } else {
        bytes_before(a.drop_first(), b.drop_first())
    }
}

/// Whether the first byte string comes before the second.
pub fn comes_before(a: &[u8], b: &[u8]) -> (r: bool)
    ensures
        r == bytes_before(a@, b@),
{
    let mut i: usize = 0;
    assert(a@.skip(0) =~= a@ && b@.skip(0) =~= b@);
    while i < a.len() && i < b.len()
        invariant
            i <= a@.len(),
            i <= b@.len(),
            bytes_before(a@, b@) == bytes_before(a@.skip(i as int), b@.skip(i as int)),
        decreases a.len() - i,
    {
        assert(a@.skip(i as int).drop_first() =~= a@.skip(i + 1));
        assert(b@.skip(i as int).drop_first() =~= b@.skip(i + 1));
        if a[i] != b[i] {
            return a[i] < b[i];
        }
        i += 1;
    }
    i < b.len()
}

/// The bytes that may be there.
pub open spec fn opt_bytes(b: Option<Vec<u8>>) -> Option<Seq<u8>> {
    match b {
        Some(b) => Some(b@),
        None => None,
    }
}

/// A copy of the bytes.
pub fn copy_bytes(b: &[u8]) -> (v: Vec<u8>)
    ensures
        v@ == b@,
{
    let mut v: Vec<u8> = Vec::new();
    v.extend_from_slice(b);
    assert(v@ =~= b@);
    v
}

/// One byte string comes before another where it is a proper beginning of it, or has the smaller byte
/// at the first place in which they differ; and of two that differ, one comes before the other.
pub proof fn law_bytes_are_ordered_by_the_first_difference(
    front: Seq<u8>,
    a: Seq<u8>,
    b: Seq<u8>,
)
    ensures
        !bytes_before(front, front),
        b.len() > 0 ==> bytes_before(front, front + b) && !bytes_before(front + b, front),
        a.len() > 0 && b.len() > 0 && a[0] != b[0] ==> bytes_before(front + a, front + b) == (a[0]
            < b[0]),
    decreases front.len(),
{
    if front.len() == 0 {
        assert(front + a =~= a);
        assert(front + b =~= b);
    } else {
        let rest = front.drop_first();
        law_bytes_are_ordered_by_the_first_difference(rest, a, b);
        assert((front + a).drop_first() =~= rest + a);
        assert((front + b).drop_first() =~= rest + b);
    }
}

/// The lowest byte of a number comes first, then the bytes of what is left of it.
pub proof fn law_lowest_byte_comes_first(n: nat, width: nat, k: int)
    requires
        0 <= k < width,
    ensures
        le(n, width).len() == width,
        k == 0 ==> le(n, width)[0] as nat == n % 256,
        k > 0 ==> le(n, width)[k] == le(n / 256, (width - 1) as nat)[k - 1],
{
    lemma_le_len(n, width);
    lemma_le_len(n / 256, (width - 1) as nat);
}

/// The order of byte strings is strict and total: of two that differ, one comes before the other and not
/// the other way round, and what comes before one comes before all behind it.
pub proof fn law_byte_order_is_strict(a: Seq<u8>, b: Seq<u8>, c: Seq<u8>)
    ensures
        bytes_before(a, b) ==> !bytes_before(b, a),
        a != b ==> bytes_before(a, b) || bytes_before(b, a),
        bytes_before(a, b) && bytes_before(b, c) ==> bytes_before(a, c),
    decreases a.len() + b.len() + c.len(),
{
    if a.len() == 0 && b.len() == 0 {
        assert(a =~= b);
    }
    if a.len() > 0 && b.len() > 0 && a[0] == b[0] {
        let rest = if c.len() > 0 {
            c.drop_first()
        } else {
            c
        };
        law_byte_order_is_strict(a.drop_first(), b.drop_first(), rest);
        assert(a =~= seq![a[0]] + a.drop_first());
        assert(b =~= seq![b[0]] + b.drop_first());
    }
}

} // verus!
