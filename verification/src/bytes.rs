//! Little-endian numbers in byte strings.
use vstd::prelude::*;

verus! {

/// The number that a byte string holds, least significant byte first.
pub open spec fn le_value(s: Seq<u8>) -> nat
    decreases s.len(),
{
    if s.len() == 0 {
        0
    } else {
        s[0] as nat + 256 * le_value(s.drop_first())
    }
}

/// The `count` low bytes of a number, least significant first.
pub open spec fn le_digits(n: nat, count: nat) -> Seq<u8>
    decreases count,
{
    if count == 0 {
        Seq::empty()
    } else {
        seq![(n % 256) as u8] + le_digits(n / 256, (count - 1) as nat)
    }
}

/// 256 to the power of `count`.
pub open spec fn pow256(count: nat) -> nat
    decreases count,
{
    if count == 0 {
        1
    } else {
        256 * pow256((count - 1) as nat)
    }
}

/// The number in `count` bytes is less than 256 to the power of `count`.
pub proof fn le_value_bound(s: Seq<u8>)
    ensures
        le_value(s) < pow256(s.len()),
    decreases s.len(),
{
    if s.len() > 0 {
        le_value_bound(s.drop_first());
    }
}

/// A number that fits in `count` bytes is read back from them, and there are
/// `count` of them.
pub proof fn le_digits_round_trip(n: nat, count: nat)
    requires
        n < pow256(count),
    ensures
        le_digits(n, count).len() == count,
        le_value(le_digits(n, count)) == n,
    decreases count,
{
    if count > 0 {
        le_digits_round_trip(n / 256, (count - 1) as nat);
        let d = le_digits(n, count);
        assert(d.drop_first() =~= le_digits(n / 256, (count - 1) as nat));
    }
}

/// The least significant byte comes first: a byte that is put behind others counts for more than
/// all of them.
pub proof fn later_bytes_count_more(s: Seq<u8>, b: u8)
    ensures
        le_value(s + seq![b]) == le_value(s) + b * pow256(s.len()),
        le_value(s) < pow256(s.len()),
        le_value(seq![b]) == b,
        pow256(s.len() + 1) == 256 * pow256(s.len()),
    decreases s.len(),
{
    le_value_bound(s);
    assert(seq![b].drop_first() =~= Seq::<u8>::empty());
    assert(le_value(seq![b]) == b + 256 * le_value(Seq::empty()));
    if s.len() == 0 {
        assert(s + seq![b] =~= seq![b]);
        assert(b * pow256(0) == b) by (nonlinear_arith)
            requires
                pow256(0) == 1,
        ;
    } else {
        let rest = s.drop_first();
        later_bytes_count_more(rest, b);
        assert((s + seq![b]).drop_first() =~= rest + seq![b]);
        let p = pow256(rest.len());
        assert(256 * (le_value(rest) + b * p) == 256 * le_value(rest) + b * (256 * p))
            by (nonlinear_arith);
    }
}

/// Eight bytes hold exactly the numbers of 64 bits.
pub proof fn pow256_of_eight()
    ensures
        pow256(8) == 0x1_0000_0000_0000_0000,
{
    reveal_with_fuel(pow256, 9);
}

/// Reads `count` bytes at `from` as a number.
pub fn read_le(bytes: &[u8], from: usize, count: usize) -> (r: u64)
    requires
        from + count <= bytes@.len(),
        count <= 8,
    ensures
        r == le_value(bytes@.subrange(from as int, from + count)),
    decreases count,
{
    let ghost s = bytes@.subrange(from as int, from + count);
    if count == 0 {
        return 0;
    }
    assert(bytes@.len() == bytes.len());
    let rest = read_le(bytes, from + 1, count - 1);
    proof {
        let t = bytes@.subrange(from + 1, from + count);
        assert(s.drop_first() =~= t);
        le_value_bound(t);
        reveal_with_fuel(pow256, 9);
    }
    rest * 256 + bytes[from] as u64
}

/// The eight bytes of a number.
pub fn write_le_u64(n: u64) -> (r: Vec<u8>)
    ensures
        r@ == le_digits(n as nat, 8),
        r@.len() == 8,
        le_value(r@) == n,
{
    let mut r: Vec<u8> = Vec::new();
    let mut left: u64 = n;
    let mut i: usize = 0;
    proof {
        assert(r@ + le_digits(left as nat, 8) =~= le_digits(n as nat, 8));
    }
    while i < 8
        invariant
            i <= 8,
            r@.len() == i,
            r@ + le_digits(left as nat, (8 - i) as nat) == le_digits(n as nat, 8),
        decreases 8 - i,
    {
        let ghost before = r@;
        r.push((left % 256) as u8);
        proof {
            let tail = le_digits((left / 256) as nat, (8 - i - 1) as nat);
            assert(before + (seq![(left % 256) as u8] + tail) =~= r@ + tail);
        }
        left = left / 256;
        i = i + 1;
    }
    proof {
        pow256_of_eight();
        le_digits_round_trip(n as nat, 8);
        assert(r@ + Seq::<u8>::empty() =~= r@);
    }
    r
}

} // verus!
