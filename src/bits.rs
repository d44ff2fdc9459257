//! The mathematical model of the packed format: bits are grouped eight to a
//! byte in arrival order, the first bit of a group being the byte's high bit.
use vstd::arithmetic::power2::{lemma2_to64, lemma_pow2_adds, lemma_pow2_unfold, pow2};
use vstd::prelude::*;

verus! {

/// Every element is a bit: 0 or 1.
pub open spec fn is_bits(bits: Seq<u8>) -> bool {
    forall|i: int| 0 <= i < bits.len() ==> #[trigger] bits[i] <= 1
}

/// The number that `bits` spell when read most significant bit first.
pub open spec fn msb_value(bits: Seq<u8>) -> nat
    decreases bits.len(),
{
    if bits.len() == 0 {
        0
    } else {
        2 * msb_value(bits.drop_last()) + bits.last() as nat
    }
}

/// `k` zero bits.
pub open spec fn zero_bits(k: nat) -> Seq<u8> {
    Seq::new(k, |i: int| 0u8)
}

/// `bits` followed by zero bits up to a length of eight.
pub open spec fn pad_to_byte(bits: Seq<u8>) -> Seq<u8> {
    bits + zero_bits((8 - bits.len()) as nat)
}

/// The byte that holds up to eight bits: the first bit is the high bit, and
/// the positions below the last bit are zero.
pub open spec fn byte_of(bits: Seq<u8>) -> u8 {
    msb_value(pad_to_byte(bits)) as u8
}

/// Number of bytes that `n` bits take: `ceil(n / 8)`.
pub open spec fn byte_count(n: nat) -> nat {
    (n + 7) / 8
}

/// The `i`-th group of eight bits; the last group may be shorter.
pub open spec fn chunk(bits: Seq<u8>, i: int) -> Seq<u8> {
    let end = if 8 * i + 8 <= bits.len() {
        8 * i + 8
    } else {
        bits.len() as int
    };
    bits.subrange(8 * i, end)
}

/// `bits` packed eight to a byte, the last byte padded with zero bits.
pub open spec fn packed(bits: Seq<u8>) -> Seq<u8> {
    Seq::new(byte_count(bits.len()), |i: int| byte_of(chunk(bits, i)))
}

pub proof fn lemma_msb_value_bound(bits: Seq<u8>)
    requires
        is_bits(bits),
    ensures
        msb_value(bits) < pow2(bits.len()),
    decreases bits.len(),
{
    if bits.len() == 0 {
        lemma2_to64();
    } else {
        let init = bits.drop_last();
        assert(is_bits(init)) by {
            assert forall|i: int| 0 <= i < init.len() implies #[trigger] init[i] <= 1 by {
                assert(init[i] == bits[i]);
            }
        }
        assert(bits.last() <= 1) by {
            assert(bits.last() == bits[bits.len() - 1]);
        }
        lemma_msb_value_bound(init);
        lemma_pow2_unfold(bits.len());
    }
}

/// Appending zero bits multiplies the value by a power of two.
pub proof fn lemma_msb_value_zeros(bits: Seq<u8>, k: nat)
    ensures
        msb_value(bits + zero_bits(k)) == msb_value(bits) * pow2(k),
    decreases k,
{
    if k == 0 {
        assert(bits + zero_bits(0) =~= bits);
        lemma2_to64();
        assert(msb_value(bits) * 1 == msb_value(bits));
    } else {
        let k1 = (k - 1) as nat;
        let ext = bits + zero_bits(k);
        assert(ext.drop_last() =~= bits + zero_bits(k1));
        assert(ext.last() == 0) by {
            assert(ext.last() == ext[ext.len() - 1]);
        }
        lemma_msb_value_zeros(bits, k1);
        lemma_pow2_unfold(k);
        assert(msb_value(bits) * pow2(k) == 2 * (msb_value(bits) * pow2(k1))) by (nonlinear_arith)
            requires
                pow2(k) == 2 * pow2(k1),
        ;
        assert(msb_value(ext) == 2 * msb_value(ext.drop_last()) + ext.last() as nat);
    }
}

/// The byte of up to eight bits is their value shifted to the top, and its
/// `8 - bits.len()` low bits are zero.
pub proof fn lemma_byte_of(bits: Seq<u8>)
    requires
        is_bits(bits),
        bits.len() <= 8,
    ensures
        byte_of(bits) as nat == msb_value(pad_to_byte(bits)),
        byte_of(bits) as nat == msb_value(bits) * pow2((8 - bits.len()) as nat),
        byte_of(bits) as nat % pow2((8 - bits.len()) as nat) == 0,
{
    let k = (8 - bits.len()) as nat;
    lemma_msb_value_zeros(bits, k);
    lemma_msb_value_bound(bits);
    lemma_pow2_adds(bits.len(), k);
    lemma2_to64();
    let v = msb_value(bits);
    let p = pow2(k);
    assert(v * p < 256) by (nonlinear_arith)
        requires
            v < pow2(bits.len()),
            pow2(bits.len()) * p == 256,
            p > 0,
    ;
    assert((v * p) % p == 0) by (nonlinear_arith)
        requires
            p > 0,
    ;
}

pub proof fn lemma_packed_empty()
    ensures
        packed(Seq::empty()) == Seq::<u8>::empty(),
{
    assert(packed(Seq::empty()) =~= Seq::<u8>::empty());
}

/// One to eight bits make one byte.
pub proof fn lemma_packed_one_byte(bits: Seq<u8>)
    requires
        0 < bits.len() <= 8,
    ensures
        packed(bits) == seq![byte_of(bits)],
{
    assert(chunk(bits, 0) =~= bits);
    assert(packed(bits) =~= seq![byte_of(bits)]);
}

/// A prefix whose length is a multiple of eight packs on its own.
pub proof fn lemma_packed_append(a: Seq<u8>, c: Seq<u8>)
    requires
        a.len() % 8 == 0,
    ensures
        packed(a + c) == packed(a) + packed(c),
{
    let n = a.len() / 8;
    assert(byte_count(a.len() + c.len()) == n + byte_count(c.len()));
    assert(byte_count(a.len()) == n);
    assert forall|i: int| 0 <= i < byte_count((a + c).len()) implies #[trigger] chunk(a + c, i) == (
    if i < n {
        chunk(a, i)
    } else {
        chunk(c, i - n)
    }) by {
        if i < n {
            assert(8 * i + 8 <= a.len()) by (nonlinear_arith)
                requires
                    i < n,
                    n == a.len() / 8,
                    a.len() % 8 == 0,
            ;
            assert(chunk(a + c, i) =~= chunk(a, i));
        } else {
            assert(8 * i == a.len() + 8 * (i - n));
            assert(chunk(a + c, i) =~= chunk(c, i - n));
        }
    }
    assert(packed(a + c) =~= packed(a) + packed(c));
}

} // verus!
