//! Numbers as the store holds them: a fixed number of bytes, the most
//! significant byte first, so that the order of the keys is the order of the
//! numbers.

use vstd::prelude::*;

verus! {

/// 256 to the power of `width`.
pub open spec fn pow256(width: nat) -> nat
    decreases width,
{
    if width == 0 {
        1
    } else {
        256 * pow256((width - 1) as nat)
    }
}

/// The number that `bytes` stand for, the most significant byte first.
pub open spec fn be_value(bytes: Seq<u8>) -> nat
    decreases bytes.len(),
{
    if bytes.len() == 0 {
        0
    } else {
        be_value(bytes.drop_last()) * 256 + bytes.last() as nat
    }
}

/// The `width` bytes that stand for `value`, the most significant byte first.
pub open spec fn be_bytes(value: nat, width: nat) -> Seq<u8>
    decreases width,
{
    if width == 0 {
        Seq::empty()
    } else {
        be_bytes(value / 256, (width - 1) as nat).push((value % 256) as u8)
    }
}

/// The powers of 256 that fit the numbers of the machine.
pub proof fn lemma_pow256_values()
    ensures
        pow256(0) == 1,
        pow256(1) == 0x100,
        pow256(2) == 0x1_0000,
        pow256(3) == 0x100_0000,
        pow256(4) == 0x1_0000_0000,
        pow256(5) == 0x100_0000_0000,
        pow256(6) == 0x1_0000_0000_0000,
        pow256(7) == 0x100_0000_0000_0000,
        pow256(8) == 0x1_0000_0000_0000_0000,
{
    reveal_with_fuel(pow256, 10);
}

/// A number written with `width` bytes has `width` bytes.
pub proof fn lemma_be_bytes_len(value: nat, width: nat)
    ensures
        be_bytes(value, width).len() == width,
    decreases width,
{
    if width > 0 {
        lemma_be_bytes_len(value / 256, (width - 1) as nat);
    }
}

/// A number that fits `width` bytes is read back from the bytes that stand
/// for it.
pub proof fn lemma_be_round_trip(value: nat, width: nat)
    requires
        value < pow256(width),
    ensures
        be_value(be_bytes(value, width)) == value,
    decreases width,
{
    if width > 0 {
        let front = be_bytes(value / 256, (width - 1) as nat);
        lemma_be_round_trip(value / 256, (width - 1) as nat);
        assert(be_bytes(value, width).drop_last() =~= front);
    }
}

/// Bytes are the bytes that stand for the number that they stand for.
pub proof fn lemma_be_bytes_of_value(bytes: Seq<u8>)
    ensures
        be_bytes(be_value(bytes), bytes.len()) == bytes,
    decreases bytes.len(),
{
    if bytes.len() > 0 {
        lemma_be_bytes_of_value(bytes.drop_last());
        let value = be_value(bytes);
        assert(value / 256 == be_value(bytes.drop_last()));
        assert(value % 256 == bytes.last());
        assert(be_bytes(value, bytes.len()) =~= bytes);
    }
}

/// Reads the number that the `width` bytes of `bytes` from `from` on stand for.
pub fn read_be(bytes: &[u8], from: usize, width: usize) -> (value: u64)
    requires
        width <= 8,
        from + width <= bytes@.len(),
    ensures
        value == be_value(bytes@.subrange(from as int, from + width)),
        value < pow256(width as nat),
{
    let total = bytes.len();
    let mut value: u64 = 0;
    let mut i: usize = 0;
    proof {
        lemma_pow256_values();
        assert(bytes@.subrange(from as int, from as int) =~= Seq::<u8>::empty());
    }
    while i < width
        invariant
            i <= width <= 8,
            from + width <= bytes@.len(),
            bytes@.len() == total,
            value == be_value(bytes@.subrange(from as int, from + i)),
            value < pow256(i as nat),
        decreases width - i,
    {
        proof {
            lemma_pow256_values();
            let longer = bytes@.subrange(from as int, from + i + 1);
            assert(longer.drop_last() =~= bytes@.subrange(from as int, from + i));
            assert(longer.last() == bytes@[from + i]);
            assert(pow256((i + 1) as nat) == 256 * pow256(i as nat));
        }
        value = value * 256 + bytes[from + i] as u64;
        i += 1;
    }
    value
}

/// Appends the `width` bytes that stand for `value` to `out`.
pub fn write_be(out: &mut Vec<u8>, value: u64, width: usize)
    requires
        width <= 8,
    ensures
        final(out)@ == old(out)@ + be_bytes(value as nat, width as nat),
{
    let mut digits: Vec<u8> = Vec::new();
    let mut rest = value;
    let mut i: usize = 0;
    // the least significant byte first
    while i < width
        invariant
            i <= width,
            digits@.len() == i,
            be_bytes(value as nat, width as nat) == be_bytes(rest as nat, (width - i) as nat) + Seq::new(
                i as nat,
                |k: int| digits@[i - 1 - k],
            ),
        decreases width - i,
    {
        let ghost before = digits@;
        digits.push((rest % 256) as u8);
        proof {
            let left = (width - i) as nat;
            assert(be_bytes(rest as nat, left) == be_bytes(rest as nat / 256, (left - 1) as nat).push(
                (rest as nat % 256) as u8,
            ));
            assert(be_bytes(rest as nat / 256, (left - 1) as nat).push((rest as nat % 256) as u8) + Seq::new(
                i as nat,
                |k: int| before[i - 1 - k],
            ) =~= be_bytes(rest as nat / 256, (left - 1) as nat) + Seq::new(
                (i + 1) as nat,
                |k: int| digits@[i - k],
            ));
        }
        rest = rest / 256;
        i += 1;
    }
    let ghost turned = Seq::new(width as nat, |k: int| digits@[width - 1 - k]);
    assert(be_bytes(value as nat, width as nat) =~= turned) by {
        assert(be_bytes(rest as nat, 0) =~= Seq::<u8>::empty());
    }
    let mut k: usize = 0;
    while k < width
        invariant
            k <= width,
            digits@.len() == width,
            out@ == old(out)@ + turned.take(k as int),
            turned == Seq::new(width as nat, |k: int| digits@[width - 1 - k]),
        decreases width - k,
    {
        out.push(digits[width - 1 - k]);
        assert(turned.take(k + 1) =~= turned.take(k as int).push(turned[k as int]));
        assert(old(out)@ + turned.take(k as int).push(turned[k as int]) =~= (old(out)@ + turned.take(
            k as int,
        )).push(turned[k as int]));
        k += 1;
    }
    assert(turned.take(width as int) =~= turned);
}

} // verus!
