//! Fixed-width integers as bytes.

use vstd::prelude::*;

verus! {

/// `256` to the power of `k`.
pub open spec fn pow256(k: nat) -> nat
    decreases k,
{
    if k == 0 {
        1
    } else {
        256 * pow256((k - 1) as nat)
    }
}

/// The `k` low bytes of `n`, least significant first.
pub open spec fn le_bytes(n: nat, k: nat) -> Seq<u8>
    decreases k,
{
    if k == 0 {
        Seq::empty()
    } else {
        seq![(n % 256) as u8] + le_bytes(n / 256, (k - 1) as nat)
    }
}

/// The `k` low bytes of `n`, most significant first.
pub open spec fn be_bytes(n: nat, k: nat) -> Seq<u8>
    decreases k,
{
    if k == 0 {
        Seq::empty()
    } else {
        be_bytes(n / 256, (k - 1) as nat).push((n % 256) as u8)
    }
}

/// The number that bytes hold, least significant first.
pub open spec fn le_value(s: Seq<u8>) -> nat
    decreases s.len(),
{
    if s.len() == 0 {
        0
    } else {
        s[0] as nat + 256 * le_value(s.drop_first())
    }
}

/// The number that bytes hold, most significant first.
pub open spec fn be_value(s: Seq<u8>) -> nat
    decreases s.len(),
{
    if s.len() == 0 {
        0
    } else {
        256 * be_value(s.drop_last()) + s.last() as nat
    }
}

/// Widths.
pub proof fn lemma_widths()
    ensures
        pow256(2) == 0x1_0000,
        pow256(4) == 0x1_0000_0000,
        pow256(8) == 0x1_0000_0000_0000_0000,
        pow256(16) == 0x1_0000_0000_0000_0000_0000_0000_0000_0000,
{
    reveal_with_fuel(pow256, 17);
}

/// Little-endian bytes have their length and hold their number.
pub proof fn law_le_round_trip(n: nat, k: nat)
    ensures
        le_bytes(n, k).len() == k,
        n < pow256(k) ==> le_value(le_bytes(n, k)) == n,
    decreases k,
{
    if k > 0 {
        law_le_round_trip(n / 256, (k - 1) as nat);
        assert(le_bytes(n, k).drop_first() =~= le_bytes(n / 256, (k - 1) as nat));
        assert(le_bytes(n, k)[0] == (n % 256) as u8);
        if n < pow256(k) {
            assert(n / 256 < pow256((k - 1) as nat));
        }
    }
}

/// Bytes are the little-endian bytes of the number that they hold.
pub proof fn law_le_inverse(s: Seq<u8>)
    ensures
        le_value(s) < pow256(s.len()),
        le_bytes(le_value(s), s.len()) == s,
    decreases s.len(),
{
    if s.len() > 0 {
        law_le_inverse(s.drop_first());
        let v = le_value(s);
        assert(v % 256 == s[0]);
        assert(v / 256 == le_value(s.drop_first()));
        assert(le_bytes(v, s.len()) =~= seq![s[0]] + s.drop_first());
        assert(seq![s[0]] + s.drop_first() =~= s);
    } else {
        assert(le_bytes(0, 0) =~= s);
    }
}

/// Big-endian bytes have their length and hold their number.
pub proof fn law_be_round_trip(n: nat, k: nat)
    ensures
        be_bytes(n, k).len() == k,
        n < pow256(k) ==> be_value(be_bytes(n, k)) == n,
    decreases k,
{
    if k > 0 {
        law_be_round_trip(n / 256, (k - 1) as nat);
        assert(be_bytes(n, k).drop_last() =~= be_bytes(n / 256, (k - 1) as nat));
        if n < pow256(k) {
            assert(n / 256 < pow256((k - 1) as nat));
        }
    }
}

/// Append `k` little-endian bytes of `n`.
pub fn push_le(out: &mut Vec<u8>, n: u128, k: usize)
    ensures
        final(out)@ == old(out)@ + le_bytes(n as nat, k as nat),
{
    let ghost before = out@;
    let mut rest: u128 = n;
    let mut left: usize = k;
    assert(before + le_bytes(rest as nat, left as nat) =~= out@ + le_bytes(
        rest as nat,
        left as nat,
    ));
    while left > 0
        invariant
            before + le_bytes(n as nat, k as nat) == out@ + le_bytes(rest as nat, left as nat),
        decreases left,
    {
        let ghost so_far = out@;
        out.push((rest % 256) as u8);
        proof {
            let tail = le_bytes((rest / 256) as nat, (left - 1) as nat);
            assert(le_bytes(rest as nat, left as nat) == seq![(rest % 256) as u8] + tail);
            assert(so_far + (seq![(rest % 256) as u8] + tail) =~= out@ + tail);
        }
        rest = rest / 256;
        left -= 1;
    }
    assert(out@ + le_bytes(rest as nat, 0) =~= out@);
}

/// Append `k` big-endian bytes of `n`.
pub fn push_be(out: &mut Vec<u8>, n: u128, k: usize)
    ensures
        final(out)@ == old(out)@ + be_bytes(n as nat, k as nat),
    decreases k,
{
    let ghost before = out@;
    if k > 0 {
        push_be(out, n / 256, k - 1);
        out.push((n % 256) as u8);
    }
    assert(out@ =~= before + be_bytes(n as nat, k as nat));
}

/// The number in `k` little-endian bytes at `at`.
pub fn read_le(bytes: &[u8], at: usize, k: usize) -> (n: u128)
    requires
        at + k <= bytes@.len(),
        k <= 16,
    ensures
        n == le_value(bytes@.subrange(at as int, at + k)),
        n < pow256(k as nat),
{
    let ghost part = bytes@.subrange(at as int, at + k);
    let total: usize = bytes.len();
    let mut n: u128 = 0;
    let mut i: usize = k;
    proof {
        lemma_widths();
        lemma_pow_monotone(k as nat, 16);
        assert(part.skip(k as int) =~= Seq::<u8>::empty());
    }
    while i > 0
        invariant
            at + k <= total,
            total == bytes@.len(),
            i <= k <= 16,
            part == bytes@.subrange(at as int, at + k),
            n == le_value(part.skip(i as int)),
            pow256(16) == 0x1_0000_0000_0000_0000_0000_0000_0000_0000,
        decreases i,
    {
        proof {
            let tail = part.skip(i - 1);
            law_le_inverse(tail);
            lemma_pow_monotone(tail.len(), 16);
            assert(tail.drop_first() =~= part.skip(i as int));
            assert(tail[0] == bytes@[at + i - 1]);
        }
        i -= 1;
        n = n * 256 + bytes[at + i] as u128;
    }
    proof {
        assert(part.skip(0) =~= part);
        law_le_inverse(part);
    }
    n
}

proof fn lemma_pow_monotone(a: nat, b: nat)
    requires
        a <= b,
    ensures
        0 < pow256(a) <= pow256(b),
    decreases b,
{
    if a < b {
        lemma_pow_monotone(a, (b - 1) as nat);
    } else if a > 0 {
        lemma_pow_monotone((a - 1) as nat, (a - 1) as nat);
    }
}

/// Append every byte of `from`.
pub fn push_all(out: &mut Vec<u8>, from: &[u8])
    ensures
        final(out)@ == old(out)@ + from@,
{
    let ghost before = out@;
    let mut i: usize = 0;
    assert(before + from@.take(0) =~= out@);
    while i < from.len()
        invariant
            i <= from@.len(),
            out@ == before + from@.take(i as int),
        decreases from@.len() - i,
    {
        out.push(from[i]);
        i += 1;
        assert(out@ =~= before + from@.take(i as int));
    }
    assert(from@.take(from@.len() as int) =~= from@);
}

/// A copy of the bytes in `[from, to)`.
pub fn copy_range(bytes: &[u8], from: usize, to: usize) -> (r: Vec<u8>)
    requires
        from <= to <= bytes@.len(),
    ensures
        r@ == bytes@.subrange(from as int, to as int),
{
    let mut out: Vec<u8> = Vec::new();
    let mut i: usize = from;
    while i < to
        invariant
            from <= i <= to <= bytes@.len(),
            out@ == bytes@.subrange(from as int, i as int),
        decreases to - i,
    {
        out.push(bytes[i]);
        i += 1;
        assert(out@ =~= bytes@.subrange(from as int, i as int));
    }
    out
}

/// The number that two bytes hold, least significant first.
pub proof fn law_le_value_of_two(s: Seq<u8>)
    requires
        s.len() == 2,
    ensures
        le_value(s) == s[0] + 0x100 * s[1],
{
    reveal_with_fuel(le_value, 3);
    assert(s.drop_first()[0] == s[1]);
}

/// The number that four bytes hold, least significant first.
pub proof fn law_le_value_of_four(s: Seq<u8>)
    requires
        s.len() == 4,
    ensures
        le_value(s) == s[0] + 0x100 * s[1] + 0x1_0000 * s[2] + 0x100_0000 * s[3],
{
    let tail = s.drop_first().drop_first();
    law_le_value_of_two(tail);
    reveal_with_fuel(le_value, 3);
    assert(s.drop_first()[0] == s[1]);
    assert(tail[0] == s[2] && tail[1] == s[3]);
}

/// Little-endian bytes begin with the least significant one.
pub proof fn law_le_begins_with_the_low_byte(n: nat, k: nat)
    requires
        k > 0,
    ensures
        le_bytes(n, k).len() == k,
        le_bytes(n, k)[0] as nat == n % 256,
        le_bytes(n, k).drop_first() == le_bytes(n / 256, (k - 1) as nat),
{
    law_le_round_trip(n, k);
    assert(le_bytes(n, k).drop_first() =~= le_bytes(n / 256, (k - 1) as nat));
}

/// Big-endian bytes end in the least significant one.
pub proof fn law_be_ends_in_the_low_byte(n: nat, k: nat)
    requires
        k > 0,
    ensures
        be_bytes(n, k).len() == k,
        be_bytes(n, k).last() as nat == n % 256,
        be_bytes(n, k).drop_last() == be_bytes(n / 256, (k - 1) as nat),
{
    law_be_round_trip(n, k);
    assert(be_bytes(n, k).drop_last() =~= be_bytes(n / 256, (k - 1) as nat));
}

} // verus!
