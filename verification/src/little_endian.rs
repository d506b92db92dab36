//! Little-endian integers of a fixed width.

use vstd::prelude::*;

verus! {

/// 256 to the power `n`.
pub open spec fn pow256(n: nat) -> nat
    decreases n,
{
    if n == 0 {
        1
    } else {
        256 * pow256((n - 1) as nat)
    }
}

/// The `width` low-order base-256 digits of `value`, least significant first.
pub open spec fn le_bytes(value: nat, width: nat) -> Seq<u8>
    decreases width,
{
    if width == 0 {
        Seq::empty()
    } else {
        seq![(value % 256) as u8] + le_bytes(value / 256, (width - 1) as nat)
    }
}

/// The number whose base-256 digits, least significant first, are `bytes`.
pub open spec fn le_value(bytes: Seq<u8>) -> nat
    decreases bytes.len(),
{
    if bytes.len() == 0 {
        0
    } else {
        bytes[0] as nat + 256 * le_value(bytes.drop_first())
    }
}

/// The powers of 256 that bound the integer widths of the wire format.
pub proof fn lemma_pow256_values()
    ensures
        pow256(0) == 1,
        pow256(1) == 0x100,
        pow256(2) == 0x1_0000,
        pow256(4) == 0x1_0000_0000,
        pow256(8) == 0x1_0000_0000_0000_0000,
{
    reveal_with_fuel(pow256, 9);
}

/// `pow256` never decreases.
pub proof fn lemma_pow256_monotonic(a: nat, b: nat)
    requires
        a <= b,
    ensures
        pow256(a) <= pow256(b),
        pow256(a) >= 1,
    decreases b,
{
    if a < b {
        lemma_pow256_monotonic(a, (b - 1) as nat);
    } else if a > 0 {
        lemma_pow256_monotonic((a - 1) as nat, (a - 1) as nat);
    }
}

/// An encoding has exactly the width asked for.
pub proof fn lemma_le_bytes_len(value: nat, width: nat)
    ensures
        le_bytes(value, width).len() == width,
    decreases width,
{
    if width > 0 {
        lemma_le_bytes_len(value / 256, (width - 1) as nat);
    }
}

/// Byte `i` of an encoding is digit `i` of the value in base 256.
pub proof fn lemma_le_bytes_index(value: nat, width: nat, i: nat)
    requires
        i < width,
    ensures
        le_bytes(value, width)[i as int] == (value / pow256(i)) % 256,
    decreases width,
{
    let rest = le_bytes(value / 256, (width - 1) as nat);
    let place = pow256(i);
    lemma_le_bytes_len(value / 256, (width - 1) as nat);
    if i == 0 {
        assert(le_bytes(value, width)[0] == (value % 256) as u8);
        assert(value / place == value) by (nonlinear_arith)
            requires
                place == 1,
        ;
    } else {
        let below = pow256((i - 1) as nat);
        lemma_le_bytes_index(value / 256, (width - 1) as nat, (i - 1) as nat);
        lemma_pow256_monotonic(0, (i - 1) as nat);
        vstd::arithmetic::div_mod::lemma_div_denominator(value as int, 256, below as int);
        assert(le_bytes(value, width)[i as int] == rest[i - 1]);
        assert(value / place == (value / 256) / below) by (nonlinear_arith)
            requires
                place == 256 * below,
                (value as int / 256) / (below as int) == value as int / (256 * (below as int)),
        ;
    }
}

/// The value of `n` bytes is below 256 to the `n`.
pub proof fn lemma_le_value_bound(bytes: Seq<u8>)
    ensures
        le_value(bytes) < pow256(bytes.len()),
    decreases bytes.len(),
{
    if bytes.len() > 0 {
        lemma_le_value_bound(bytes.drop_first());
    }
}

/// Reading back what was written gives the value, when the width holds it.
pub proof fn lemma_le_value_of_le_bytes(value: nat, width: nat)
    requires
        value < pow256(width),
    ensures
        le_value(le_bytes(value, width)) == value,
    decreases width,
{
    if width > 0 {
        let rest = le_bytes(value / 256, (width - 1) as nat);
        lemma_le_value_of_le_bytes(value / 256, (width - 1) as nat);
        assert(le_bytes(value, width).drop_first() =~= rest);
    }
}

/// Writing back what was read gives the same bytes.
pub proof fn lemma_le_bytes_of_le_value(bytes: Seq<u8>)
    ensures
        le_bytes(le_value(bytes), bytes.len()) == bytes,
    decreases bytes.len(),
{
    if bytes.len() > 0 {
        lemma_le_bytes_of_le_value(bytes.drop_first());
        assert(le_bytes(le_value(bytes), bytes.len()) =~= bytes);
    }
}

/// Appends the `width` low-order bytes of `value`, least significant first.
pub fn push_le(out: &mut Vec<u8>, value: u64, width: usize)
    requires
        width <= 8,
    ensures
        final(out)@ == old(out)@ + le_bytes(value as nat, width as nat),
{
    let mut rest: u64 = value;
    let mut written: usize = 0;
    while written < width
        invariant
            written <= width,
            old(out)@ + le_bytes(value as nat, width as nat) == out@ + le_bytes(
                rest as nat,
                (width - written) as nat,
            ),
        decreases width - written,
    {
        let ghost before = out@;
        let low: u8 = (rest % 256) as u8;
        out.push(low);
        rest = rest / 256;
        written = written + 1;
        assert(before + (seq![low] + le_bytes(rest as nat, (width - written) as nat))
            =~= before.push(low) + le_bytes(rest as nat, (width - written) as nat));
    }
}

/// Reads the `width` bytes from `start` on as one little-endian number,
/// which is below 256 to the `width`.
pub fn read_le(bytes: &[u8], start: usize, width: usize) -> (value: u64)
    requires
        width <= 8,
        start + width <= bytes.len(),
    ensures
        value as nat == le_value(bytes@.subrange(start as int, start + width)),
        value < pow256(width as nat),
{
    let mut value: u64 = 0;
    let mut left: usize = width;
    while left > 0
        invariant
            left <= width <= 8,
            start + width <= bytes.len(),
            value as nat == le_value(bytes@.subrange(start + left, start + width)),
            value < pow256((width - left) as nat),
        decreases left,
    {
        left = left - 1;
        proof {
            let field = bytes@.subrange(start + left, start + width);
            assert(field.drop_first() =~= bytes@.subrange(start + left + 1, start + width));
            lemma_pow256_monotonic((width - left) as nat, 8);
            lemma_pow256_values();
        }
        value = value * 256 + bytes[start + left] as u64;
    }
    value
}

} // verus!
