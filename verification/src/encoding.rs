//! Fixed-width number encodings shared by the archive formats.

use vstd::prelude::*;

verus! {

/// Eight to the power `n`.
pub open spec fn pow8(n: nat) -> nat
    decreases n,
{
    if n == 0 {
        1
    } else {
        8 * pow8((n - 1) as nat)
    }
}

/// The `n` low-order base-8 digits of `v` as ASCII, most significant first.
pub open spec fn octal_digits(v: nat, n: nat) -> Seq<u8>
    decreases n,
{
    if n == 0 {
        Seq::empty()
    } else {
        octal_digits(v / 8, (n - 1) as nat).push((48 + v % 8) as u8)
    }
}

/// The number that a run of ASCII octal digits denotes.
pub open spec fn octal_value(s: Seq<u8>) -> nat
    decreases s.len(),
{
    if s.len() == 0 {
        0
    } else {
        octal_value(s.drop_last()) * 8 + if 48 <= s.last() < 56 {
            (s.last() - 48) as nat
        } else {
            0
        }
    }
}

/// `v` as two bytes, least significant first.
pub open spec fn le16(v: u16) -> Seq<u8> {
    seq![(v % 256) as u8, (v / 256) as u8]
}

/// `v` as four bytes, least significant first.
pub open spec fn le32(v: u32) -> Seq<u8> {
    seq![
        (v % 256) as u8,
        (v / 256 % 256) as u8,
        (v / 65536 % 256) as u8,
        (v / 16777216) as u8,
    ]
}

/// `v` as eight bytes, most significant first.
pub open spec fn be64(v: u64) -> Seq<u8> {
    seq![
        (v / 0x100_0000_0000_0000) as u8,
        (v / 0x1_0000_0000_0000 % 256) as u8,
        (v / 0x100_0000_0000 % 256) as u8,
        (v / 0x1_0000_0000 % 256) as u8,
        (v / 0x100_0000 % 256) as u8,
        (v / 0x1_0000 % 256) as u8,
        (v / 0x100 % 256) as u8,
        (v % 256) as u8,
    ]
}

/// The number that two little-endian bytes denote.
pub open spec fn le16_value(s: Seq<u8>) -> nat
    recommends
        s.len() == 2,
{
    (s[0] + 256 * s[1]) as nat
}

/// The number that four little-endian bytes denote.
pub open spec fn le32_value(s: Seq<u8>) -> nat
    recommends
        s.len() == 4,
{
    (s[0] + 256 * s[1] + 65536 * s[2] + 16777216 * s[3]) as nat
}

/// The number that eight big-endian bytes denote.
pub open spec fn be64_value(s: Seq<u8>) -> nat
    recommends
        s.len() == 8,
{
    (s[7] + 0x100 * s[6] + 0x1_0000 * s[5] + 0x100_0000 * s[4] + 0x1_0000_0000 * s[3]
        + 0x100_0000_0000 * s[2] + 0x1_0000_0000_0000 * s[1] + 0x100_0000_0000_0000 * s[0]) as nat
}

/// `count` zero bytes.
pub open spec fn zeros(count: nat) -> Seq<u8> {
    Seq::new(count, |i: int| 0u8)
}

/// Octal digits have the width that was asked for.
pub proof fn lemma_octal_digits_len(v: nat, n: nat)
    ensures
        octal_digits(v, n).len() == n,
    decreases n,
{
    if n > 0 {
        lemma_octal_digits_len(v / 8, (n - 1) as nat);
    }
}

/// Reading back `n` octal digits of a number below `8^n` gives the number.
pub proof fn lemma_octal_round_trip(v: nat, n: nat)
    requires
        v < pow8(n),
    ensures
        octal_value(octal_digits(v, n)) == v,
    decreases n,
{
    if n > 0 {
        let rest = octal_digits(v / 8, (n - 1) as nat);
        lemma_octal_round_trip(v / 8, (n - 1) as nat);
        assert(octal_digits(v, n).drop_last() =~= rest);
    }
}

/// Two little-endian bytes read back as the number that was written.
pub proof fn lemma_le16_round_trip(v: u16)
    ensures
        le16_value(le16(v)) == v,
{
    assert(v % 256 + 256 * (v / 256) == v) by (bit_vector);
}

/// Four little-endian bytes read back as the number that was written.
pub proof fn lemma_le32_round_trip(v: u32)
    ensures
        le32_value(le32(v)) == v,
{
    assert(v % 256 + 256 * (v / 256 % 256) + 65536 * (v / 65536 % 256) + 16777216 * (v
        / 16777216) == v) by (bit_vector);
    assert(v / 16777216 < 256) by (bit_vector);
}

/// Eight big-endian bytes read back as the number that was written.
pub proof fn lemma_be64_round_trip(v: u64)
    ensures
        be64_value(be64(v)) == v,
{
    assert(v % 256 + 0x100 * (v / 0x100 % 256) + 0x1_0000 * (v / 0x1_0000 % 256) + 0x100_0000 * (v
        / 0x100_0000 % 256) + 0x1_0000_0000 * (v / 0x1_0000_0000 % 256) + 0x100_0000_0000 * (v
        / 0x100_0000_0000 % 256) + 0x1_0000_0000_0000 * (v / 0x1_0000_0000_0000 % 256)
        + 0x100_0000_0000_0000 * (v / 0x100_0000_0000_0000) == v) by (bit_vector);
    assert(v / 0x100_0000_0000_0000 < 256) by (bit_vector);
}

/// The fixed-width encodings have their widths.
pub proof fn lemma_le_lengths()
    ensures
        forall|v: u16| #[trigger] le16(v).len() == 2,
        forall|v: u32| #[trigger] le32(v).len() == 4,
        forall|v: u64| #[trigger] be64(v).len() == 8,
{
}

/// Appends the `n` low-order octal digits of `v`.
pub fn push_octal(out: &mut Vec<u8>, v: u64, n: usize)
    ensures
        final(out)@ == old(out)@ + octal_digits(v as nat, n as nat),
    decreases n,
{
    if n > 0 {
        push_octal(out, v / 8, n - 1);
        let digit: u8 = 48 + (v % 8) as u8;
        out.push(digit);
        assert(out@ =~= old(out)@ + octal_digits(v as nat, n as nat));
    } else {
        assert(out@ =~= old(out)@ + octal_digits(v as nat, n as nat));
    }
}

/// Appends `v`, least significant byte first.
pub fn push_le16(out: &mut Vec<u8>, v: u16)
    ensures
        final(out)@ == old(out)@ + le16(v),
{
    out.push((v % 256) as u8);
    out.push((v / 256) as u8);
    assert(out@ =~= old(out)@ + le16(v));
}

/// Appends `v`, least significant byte first.
pub fn push_le32(out: &mut Vec<u8>, v: u32)
    ensures
        final(out)@ == old(out)@ + le32(v),
{
    out.push((v % 256) as u8);
    out.push((v / 256 % 256) as u8);
    out.push((v / 65536 % 256) as u8);
    out.push((v / 16777216) as u8);
    assert(out@ =~= old(out)@ + le32(v));
}

/// Appends `v`, most significant byte first.
pub fn push_be64(out: &mut Vec<u8>, v: u64)
    ensures
        final(out)@ == old(out)@ + be64(v),
{
    out.push((v / 0x100_0000_0000_0000) as u8);
    out.push((v / 0x1_0000_0000_0000 % 256) as u8);
    out.push((v / 0x100_0000_0000 % 256) as u8);
    out.push((v / 0x1_0000_0000 % 256) as u8);
    out.push((v / 0x100_0000 % 256) as u8);
    out.push((v / 0x1_0000 % 256) as u8);
    out.push((v / 0x100 % 256) as u8);
    out.push((v % 256) as u8);
    assert(out@ =~= old(out)@ + be64(v));
}

/// Appends `count` zero bytes.
pub fn push_zeros(out: &mut Vec<u8>, count: usize)
    ensures
        final(out)@ == old(out)@ + zeros(count as nat),
{
    let mut i: usize = 0;
    while i < count
        invariant
            i <= count,
            out@ == old(out)@ + zeros(i as nat),
        decreases count - i,
    {
        out.push(0u8);
        i += 1;
        assert(out@ =~= old(out)@ + zeros(i as nat));
    }
}

/// Appends a copy of `bytes`.
pub fn push_bytes(out: &mut Vec<u8>, bytes: &[u8])
    ensures
        final(out)@ == old(out)@ + bytes@,
{
    let mut i: usize = 0;
    while i < bytes.len()
        invariant
            i <= bytes.len(),
            out@ == old(out)@ + bytes@.take(i as int),
        decreases bytes.len() - i,
    {
        out.push(bytes[i]);
        i += 1;
        assert(out@ =~= old(out)@ + bytes@.take(i as int));
    }
    assert(bytes@.take(bytes.len() as int) =~= bytes@);
}

} // verus!
