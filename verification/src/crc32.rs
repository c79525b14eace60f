//! CRC-32 as the zip format uses it, computed piece by piece.

use vstd::prelude::*;

verus! {

/// One step of the bit-reflected shift register with polynomial `0xEDB88320`.
pub open spec fn crc_shift(c: u32) -> u32 {
    if c & 1 == 1 {
        (c >> 1) ^ 0xEDB8_8320u32
    } else {
        c >> 1
    }
}

/// Eight steps of the shift register.
pub open spec fn crc_shift8(c: u32) -> u32 {
    crc_shift(crc_shift(crc_shift(crc_shift(crc_shift(crc_shift(crc_shift(crc_shift(c))))))))
}

/// The register after one more byte.
pub open spec fn crc_byte(c: u32, b: u8) -> u32 {
    crc_shift8(c ^ (b as u32))
}

/// The register after all of `data`, starting from all ones.
pub open spec fn crc_register(data: Seq<u8>) -> u32
    decreases data.len(),
{
    if data.len() == 0 {
        0xFFFF_FFFFu32
    } else {
        crc_byte(crc_register(data.drop_last()), data.last())
    }
}

/// The CRC-32 checksum of `data`.
pub open spec fn crc32(data: Seq<u8>) -> u32 {
    crc_register(data) ^ 0xFFFF_FFFFu32
}

/// The register after `more`, starting from `c`.
pub open spec fn crc_continue(c: u32, more: Seq<u8>) -> u32
    decreases more.len(),
{
    if more.len() == 0 {
        c
    } else {
        crc_byte(crc_continue(c, more.drop_last()), more.last())
    }
}

/// Checksumming a concatenation is checksumming the first part and
/// continuing with the second.
pub proof fn lemma_crc_concat(a: Seq<u8>, b: Seq<u8>)
    ensures
        crc_register(a + b) == crc_continue(crc_register(a), b),
    decreases b.len(),
{
    if b.len() == 0 {
        assert(a + b =~= a);
    } else {
        lemma_crc_concat(a, b.drop_last());
        assert((a + b).drop_last() =~= a + b.drop_last());
    }
}

/// The byte-at-a-time table form of the register update.
proof fn lemma_table_step(c: u32, b: u8)
    ensures
        crc_byte(c, b) == crc_shift8((c ^ (b as u32)) & 0xFF) ^ (c >> 8),
        (c ^ (b as u32)) & 0xFF < 256,
{
    assert(crc_shift8(c ^ (b as u32)) == crc_shift8((c ^ (b as u32)) & 0xFF) ^ (c >> 8))
        by (bit_vector);
    assert((c ^ (b as u32)) & 0xFF < 256) by (bit_vector);
}

fn shift_once(c: u32) -> (r: u32)
    ensures
        r == crc_shift(c),
{
    if c & 1 == 1 {
        (c >> 1) ^ 0xEDB8_8320u32
    } else {
        c >> 1
    }
}

/// A running CRC-32 over the bytes fed to it so far.
pub struct Crc32 {
    table: Vec<u32>,
    register: u32,
    digested: Ghost<Seq<u8>>,
}

impl Crc32 {
    /// The lookup table holds the eight-step image of every byte value, and
    /// the register belongs to the bytes digested.
    pub closed spec fn wf(&self) -> bool {
        &&& self.table@.len() == 256
        &&& forall|i: int| 0 <= i < 256 ==> #[trigger] self.table@[i] == crc_shift8(i as u32)
        &&& self.register == crc_register(self.digested@)
    }

    /// All bytes fed since creation or the last reset.
    pub closed spec fn digested(&self) -> Seq<u8> {
        self.digested@
    }

    /// A checksum over nothing yet.
    pub fn new() -> (crc: Self)
        ensures
            crc.wf(),
            crc.digested() == Seq::<u8>::empty(),
    {
        let mut table: Vec<u32> = Vec::new();
        let mut i: u32 = 0;
        while i < 256
            invariant
                i <= 256,
                table@.len() == i,
                forall|k: int| 0 <= k < i ==> #[trigger] table@[k] == crc_shift8(k as u32),
            decreases 256 - i,
        {
            let c0: u32 = i;
            let c1: u32 = shift_once(c0);
            let c2: u32 = shift_once(c1);
            let c3: u32 = shift_once(c2);
            let c4: u32 = shift_once(c3);
            let c5: u32 = shift_once(c4);
            let c6: u32 = shift_once(c5);
            let c7: u32 = shift_once(c6);
            let c8: u32 = shift_once(c7);
            table.push(c8);
            i += 1;
        }
        Crc32 { table, register: 0xFFFF_FFFFu32, digested: Ghost(Seq::empty()) }
    }

    /// Forgets everything digested.
    pub fn reset(&mut self)
        requires
            old(self).wf(),
        ensures
            final(self).wf(),
            final(self).digested() == Seq::<u8>::empty(),
    {
        self.register = 0xFFFF_FFFFu32;
        self.digested = Ghost(Seq::empty());
    }

    /// Digests `data` after what was digested before.
    pub fn update(&mut self, data: &[u8])
        requires
            old(self).wf(),
        ensures
            final(self).wf(),
            final(self).digested() == old(self).digested() + data@,
    {
        let mut i: usize = 0;
        while i < data.len()
            invariant
                i <= data.len(),
                self.wf(),
                self.digested@ == old(self).digested@ + data@.take(i as int),
            decreases data.len() - i,
        {
            let b: u8 = data[i];
            proof {
                lemma_table_step(self.register, b);
            }
            let index: usize = ((self.register ^ (b as u32)) & 0xFF) as usize;
            let next: u32 = self.table[index] ^ (self.register >> 8);
            proof {
                let grown = self.digested@.push(b);
                assert(grown.drop_last() =~= self.digested@);
                assert(grown =~= old(self).digested@ + data@.take(i + 1));
                self.digested@ = grown;
            }
            self.register = next;
            i += 1;
        }
        assert(data@.take(data.len() as int) =~= data@);
    }

    /// The checksum of everything digested.
    pub fn value(&self) -> (sum: u32)
        requires
            self.wf(),
        ensures
            sum == crc32(self.digested()),
    {
        self.register ^ 0xFFFF_FFFFu32
    }
}

/// The CRC-32 checksum of `data` in one call.
pub fn checksum(data: &[u8]) -> (sum: u32)
    ensures
        sum == crc32(data@),
{
    let mut crc = Crc32::new();
    crc.update(data);
    assert(Seq::<u8>::empty() + data@ =~= data@);
    crc.value()
}

/// Feeding a byte string in two pieces gives the checksum of the whole.
pub proof fn lemma_crc_incremental(a: Seq<u8>, b: Seq<u8>)
    ensures
        crc32(a + b) == crc_continue(crc_register(a), b) ^ 0xFFFF_FFFFu32,
{
    lemma_crc_concat(a, b);
}

} // verus!
