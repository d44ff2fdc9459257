//! The bit packer: accumulates bits and appends each completed byte to its
//! output buffer.
use crate::bits::{
    byte_count, byte_of, chunk, is_bits, lemma_byte_of, lemma_msb_value_bound, lemma_packed_append,
    lemma_packed_empty, lemma_packed_one_byte, msb_value, packed, pad_to_byte,
};
use vstd::arithmetic::power2::{lemma2_to64, lemma_pow2_strictly_increases, pow2};
use vstd::prelude::*;

verus! {

/// What a packer holds, seen abstractly: the bytes written so far and the
/// bits that wait for their byte, in arrival order.
pub struct PackState {
    pub out: Seq<u8>,
    pub pending: Seq<u8>,
}

impl PackState {
    /// The state of a packer that was just made around `out`.
    pub open spec fn fresh(out: Seq<u8>) -> PackState {
        PackState { out, pending: Seq::empty() }
    }

    /// One more bit: the eighth pending bit completes a byte, which is written.
    pub open spec fn add_bit(self, bit: u8) -> PackState {
        if self.pending.len() + 1 >= 8 {
            PackState { out: self.out.push(byte_of(self.pending.push(bit))), pending: Seq::empty() }
        } else {
            PackState { out: self.out, pending: self.pending.push(bit) }
        }
    }

    /// The pending bits, if any, are written as one byte padded with zero bits.
    pub open spec fn flushed(self) -> PackState {
        if self.pending.len() == 0 {
            self
        } else {
            PackState { out: self.out.push(byte_of(self.pending)), pending: Seq::empty() }
        }
    }

    /// The bits of `bits` added one after the other.
    pub open spec fn add_all(self, bits: Seq<u8>) -> PackState
        decreases bits.len(),
    {
        if bits.len() == 0 {
            self
        } else {
            self.add_all(bits.drop_last()).add_bit(bits.last())
        }
    }
}

/// Packs bits eight to a byte, most significant bit first, into a byte buffer.
pub struct Pack {
    writer: Vec<u8>,
    bits: [u8; 8],
    ctr: usize,
}

impl View for Pack {
    type V = PackState;

    closed spec fn view(&self) -> PackState {
        PackState { out: self.writer@, pending: self.bits@.take(self.ctr as int) }
    }
}

impl Pack {
    /// The first `ctr` slots hold bits and the others hold zero.
    closed spec fn slots_ok(&self) -> bool {
        &&& self.ctr <= 8
        &&& is_bits(self.bits@)
        &&& self.bits@ == pad_to_byte(self.bits@.take(self.ctr as int))
    }

    /// Fewer than eight bits wait: a full byte is always written at once.
    pub closed spec fn wf(&self) -> bool {
        self.slots_ok() && self.ctr < 8
    }

    pub fn new(writer: Vec<u8>) -> (r: Pack)
        ensures
            r.wf(),
            r@ == PackState::fresh(writer@),
    {
        let r = Pack { writer, bits: [0u8; 8], ctr: 0 };
        assert(r.bits@.take(0) =~= Seq::<u8>::empty());
        assert(r.bits@ =~= pad_to_byte(Seq::empty()));
        assert(r@.pending =~= Seq::<u8>::empty());
        r
    }

    fn clear(&mut self)
        ensures
            final(self).wf(),
            final(self)@ == PackState::fresh(old(self)@.out),
    {
        self.bits = [0u8; 8];
        self.ctr = 0;
        assert(self.bits@.take(0) =~= Seq::<u8>::empty());
        assert(self.bits@ =~= pad_to_byte(Seq::empty()));
        assert(self@.pending =~= Seq::<u8>::empty());
    }

    fn to_byte(&self) -> (r: u8)
        requires
            self.slots_ok(),
        ensures
            r == byte_of(self@.pending),
    {
        let ghost pending = self@.pending;
        let mut byte: u8 = 0;
        let mut i: usize = 0;
        while i < 8
            invariant
                i <= 8,
                self.slots_ok(),
                byte as nat == msb_value(self.bits@.take(i as int)),
            decreases 8 - i,
        {
            let bit = self.bits[i];
            let ghost prefix = self.bits@.take(i as int);
            proof {
                assert(is_bits(prefix));
                lemma_msb_value_bound(prefix);
                lemma2_to64();
                if i < 7 {
                    lemma_pow2_strictly_increases(i as nat, 7);
                }
                assert(self.bits@.take(i + 1).drop_last() =~= prefix);
                assert(bit <= 1);
            }
            assert(((byte << 1u8) | bit) == 2 * byte + bit) by (bit_vector)
                requires
                    byte < 128,
                    bit <= 1,
            ;
            byte = (byte << 1u8) | bit;
            i = i + 1;
        }
        proof {
            assert(self.bits@.take(8) =~= self.bits@);
            assert(is_bits(pending));
            lemma_byte_of(pending);
        }
        byte
    }

    /// Writes the pending bits as one byte and empties the accumulator.
    fn write(&mut self)
        requires
            old(self).slots_ok(),
        ensures
            final(self).wf(),
            final(self)@ == PackState::fresh(old(self)@.out.push(byte_of(old(self)@.pending))),
    {
        let byte = self.to_byte();
        self.writer.push(byte);
        self.clear();
    }

    /// Adds one bit; the eighth pending bit completes a byte, which is written.
    pub fn add(&mut self, bit: u8)
        requires
            old(self).wf(),
            bit <= 1,
        ensures
            final(self).wf(),
            final(self)@ == old(self)@.add_bit(bit),
    {
        let ghost pending = self@.pending;
        self.bits[self.ctr] = bit;
        self.ctr += 1;
        proof {
            assert(self.bits@.take(self.ctr as int) =~= pending.push(bit));
            assert(self.bits@ =~= pad_to_byte(self.bits@.take(self.ctr as int)));
            assert(is_bits(self.bits@));
        }
        if self.ctr >= 8 {
            self.write();
        }
    }

    /// Writes the pending bits, if any, as one byte padded with zero bits.
    pub fn flush(&mut self)
        requires
            old(self).wf(),
        ensures
            final(self).wf(),
            final(self)@ == old(self)@.flushed(),
    {
        if self.ctr == 0 {
            return;
        }
        self.write();
    }

    /// The output buffer: every byte written so far.
    pub fn into_inner(self) -> (r: Vec<u8>)
        ensures
            r@ == self@.out,
    {
        self.writer
    }
}

/// `st` is what a packer holds after the bits `b` were added to a fresh
/// packer around `base`: the complete bytes of `b` are written, the rest waits.
pub open spec fn fed(st: PackState, base: Seq<u8>, b: Seq<u8>) -> bool {
    let m = b.len() - b.len() % 8;
    &&& st.out == base + packed(b.take(m))
    &&& st.pending == b.skip(m)
}

pub proof fn lemma_fed_fresh(base: Seq<u8>)
    ensures
        fed(PackState::fresh(base), base, Seq::empty()),
{
    lemma_packed_empty();
    assert(Seq::<u8>::empty().take(0) =~= Seq::<u8>::empty());
    assert(Seq::<u8>::empty().skip(0) =~= Seq::<u8>::empty());
    assert(base + Seq::<u8>::empty() =~= base);
}

pub proof fn lemma_fed_add(st: PackState, base: Seq<u8>, b: Seq<u8>, bit: u8)
    requires
        fed(st, base, b),
    ensures
        fed(st.add_bit(bit), base, b.push(bit)),
{
    let n = b.len() as int;
    let m = n - n % 8;
    let b2 = b.push(bit);
    if n % 8 + 1 < 8 {
        assert(b2.take(m) =~= b.take(m));
        assert(b2.skip(m) =~= st.pending.push(bit));
    } else {
        let head = b.take(m);
        let byte = b2.subrange(m, n + 1);
        assert(byte =~= st.pending.push(bit));
        assert(b2.take(n + 1) =~= head + byte);
        lemma_packed_append(head, byte);
        lemma_packed_one_byte(byte);
        assert(b2.skip(n + 1) =~= Seq::<u8>::empty());
        assert(st.add_bit(bit).out =~= base + packed(b2.take(n + 1)));
    }
}

pub proof fn lemma_fed_flush(st: PackState, base: Seq<u8>, b: Seq<u8>)
    requires
        fed(st, base, b),
    ensures
        st.flushed() == PackState::fresh(base + packed(b)),
{
    let m = b.len() - b.len() % 8;
    assert(b =~= b.take(m) + b.skip(m));
    lemma_packed_append(b.take(m), b.skip(m));
    if st.pending.len() == 0 {
        lemma_packed_empty();
        assert(packed(b) =~= packed(b.take(m)));
    } else {
        lemma_packed_one_byte(b.skip(m));
        assert(st.flushed().out =~= base + packed(b));
    }
    assert(st.flushed().pending =~= Seq::<u8>::empty());
}

pub proof fn lemma_add_all_fed(base: Seq<u8>, bits: Seq<u8>)
    ensures
        fed(PackState::fresh(base).add_all(bits), base, bits),
    decreases bits.len(),
{
    if bits.len() == 0 {
        lemma_fed_fresh(base);
        assert(bits =~= Seq::<u8>::empty());
    } else {
        lemma_add_all_fed(base, bits.drop_last());
        lemma_fed_add(PackState::fresh(base).add_all(bits.drop_last()), base, bits.drop_last(), bits.last());
        assert(bits.drop_last().push(bits.last()) =~= bits);
    }
}

/// Adding any bits to a fresh packer and then flushing writes exactly the
/// packed form of those bits: `ceil(n / 8)` bytes, the first bit in the high
/// bit of the first byte, and when `n` is not a multiple of eight the last
/// byte's `8 - n % 8` low bits are zero.
pub proof fn lemma_add_all_then_flush(out: Seq<u8>, bits: Seq<u8>)
    requires
        is_bits(bits),
    ensures
        PackState::fresh(out).add_all(bits).flushed() == PackState::fresh(out + packed(bits)),
        packed(bits).len() == byte_count(bits.len()),
        forall|i: int| 0 <= i < packed(bits).len() ==> #[trigger] packed(bits)[i] == byte_of(chunk(bits, i)),
        bits.len() % 8 != 0 ==> packed(bits).last() as nat % pow2((8 - bits.len() % 8) as nat) == 0,
{
    lemma_add_all_fed(out, bits);
    lemma_fed_flush(PackState::fresh(out).add_all(bits), out, bits);
    let n = bits.len();
    if n % 8 != 0 {
        let k = byte_count(n) - 1;
        let last = chunk(bits, k);
        assert(8 * k + n % 8 == n);
        assert(last.len() == n % 8);
        assert(is_bits(last)) by {
            assert forall|i: int| 0 <= i < last.len() implies #[trigger] last[i] <= 1 by {
                assert(last[i] == bits[8 * k + i]);
            }
        }
        lemma_byte_of(last);
    }
}

/// Flushing with nothing pending writes nothing, and a second flush right
/// after a first one changes nothing.
pub proof fn lemma_flush_idempotent(st: PackState)
    ensures
        st.pending.len() == 0 ==> st.flushed() == st,
        st.flushed().flushed() == st.flushed(),
{
}

} // verus!
