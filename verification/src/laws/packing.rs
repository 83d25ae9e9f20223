use vstd::prelude::*;

use crate::bitstream::{
    bits_value, lemma_low_bits_len, lemma_low_bits_value, low_bits, pack_byte, pack_bytes, pow2,
};

verus! {

/// `n` zero bits.
pub open spec fn zeros(n: nat) -> Seq<bool> {
    Seq::new(n, |i: int| false)
}

/// The bits of bytes, most significant bit of each byte first.
pub open spec fn unpack(bytes: Seq<u8>) -> Seq<bool>
    decreases bytes.len(),
{
    if bytes.len() == 0 {
        Seq::empty()
    } else {
        low_bits(bytes[0] as nat, 8) + unpack(bytes.drop_first())
    }
}

/// The bytes with the `0x00` that follows each `0xFF` taken out.
pub open spec fn unstuff(bytes: Seq<u8>) -> Seq<u8>
    decreases bytes.len(),
{
    if bytes.len() == 0 {
        Seq::empty()
    } else if bytes.len() >= 2 && bytes[0] == 0xFF && bytes[1] == 0 {
        seq![0xFFu8] + unstuff(bytes.skip(2))
    } else {
        seq![bytes[0]] + unstuff(bytes.drop_first())
    }
}

/// Writing the low `n` bits of a value below `2^n` and reading them back
/// gives the value: a bit stream made by `BitStream::new(val, size)` stands
/// for `val` whenever `val` fits in `size` bits.
pub proof fn law_bits_round_trip(val: nat, n: nat)
    requires
        val < pow2(n),
    ensures
        low_bits(val, n).len() == n,
        bits_value(low_bits(val, n)) == val,
{
    lemma_low_bits_len(val, n);
    lemma_low_bits_value(val, n);
}

proof fn lemma_bits_value_bound(s: Seq<bool>)
    ensures
        bits_value(s) < pow2(s.len()),
    decreases s.len(),
{
    if s.len() > 0 {
        lemma_bits_value_bound(s.drop_last());
    }
}

/// Reading bits as a number and writing the number back with as many bits
/// gives the same bits.
proof fn lemma_value_bits(s: Seq<bool>)
    ensures
        low_bits(bits_value(s), s.len()) == s,
    decreases s.len(),
{
    if s.len() > 0 {
        let v = bits_value(s);
        lemma_value_bits(s.drop_last());
        assert(v / 2 == bits_value(s.drop_last()));
        assert((v % 2 == 1) == s.last());
        assert(low_bits(v, s.len()) == low_bits(v / 2, (s.len() - 1) as nat).push(v % 2 == 1));
        assert(s.drop_last().push(s.last()) == s);
    } else {
        assert(s == Seq::<bool>::empty());
    }
}

/// Shifting left by `k` appends `k` zero bits.
proof fn lemma_low_bits_shift(v: nat, n: nat, k: nat)
    ensures
        low_bits(v * pow2(k), n + k) == low_bits(v, n) + zeros(k),
    decreases k,
{
    if k == 0 {
        assert(pow2(0) == 1);
        assert(v * pow2(k) == v);
        assert(low_bits(v, n) + zeros(0) =~= low_bits(v, n));
    } else {
        let k1 = (k - 1) as nat;
        lemma_low_bits_shift(v, n, k1);
        assert(v * pow2(k) == 2 * (v * pow2(k1))) by (nonlinear_arith)
            requires
                pow2(k) == 2 * pow2(k1),
        ;
        let w = v * pow2(k);
        assert(w / 2 == v * pow2(k1));
        assert(w % 2 == 0);
        assert((n + k - 1) as nat == n + k1);
        assert(low_bits(w, n + k) == low_bits(w / 2, n + k1).push(false));
        assert(low_bits(w / 2, n + k1) == low_bits(v, n) + zeros(k1));
        assert(zeros(k) =~= zeros(k1).push(false));
        assert((low_bits(v, n) + zeros(k1)).push(false) =~= low_bits(v, n) + zeros(k));
    }
}

proof fn lemma_pack_byte_bits(b: Seq<bool>)
    requires
        0 < b.len() <= 8,
    ensures
        low_bits(pack_byte(b) as nat, 8) == b + zeros((8 - b.len()) as nat),
        b.len() < 8 ==> pack_byte(b) % 2 == 0,
{
    let k = (8 - b.len()) as nat;
    lemma_bits_value_bound(b);
    crate::bitstream::lemma_pow2_add(b.len(), k);
    assert(b.len() + k == 8);
    let v = bits_value(b);
    crate::bitstream::lemma_pow2_pos(k);
    assert(v * pow2(k) < pow2(8)) by (nonlinear_arith)
        requires
            v < pow2(b.len()),
            pow2(b.len()) * pow2(k) == pow2(8),
            pow2(k) >= 1,
    {
    }
    assert(pow2(8) == 256) by {
        reveal_with_fuel(pow2, 9);
    }
    assert(pack_byte(b) as nat == v * pow2(k));
    lemma_low_bits_shift(v, b.len(), k);
    lemma_value_bits(b);
    if k > 0 {
        assert(pow2(k) == 2 * pow2((k - 1) as nat));
        assert(v * pow2(k) == 2 * (v * pow2((k - 1) as nat))) by (nonlinear_arith)
            requires
                pow2(k) == 2 * pow2((k - 1) as nat),
        ;
    }
}

/// Packing bits into bytes, without stuffing, gives one byte per eight bits,
/// rounded up.
pub proof fn law_pack_len(bits: Seq<bool>)
    ensures
        pack_bytes(bits, false).len() == (bits.len() + 7) / 8,
    decreases bits.len(),
{
    if bits.len() >= 8 {
        law_pack_len(bits.skip(8));
    }
}

/// Unpacking the bytes of a bit stream gives back the bits, followed by the
/// zero bits that fill the last byte.
pub proof fn law_pack_round_trip(bits: Seq<bool>)
    ensures
        unpack(pack_bytes(bits, false)) == bits + zeros(((8 - bits.len() % 8) % 8) as nat),
    decreases bits.len(),
{
    if bits.len() == 0 {
        assert(bits + zeros(0) =~= bits);
    } else if bits.len() < 8 {
        lemma_pack_byte_bits(bits);
        let out = pack_bytes(bits, false);
        assert(out == seq![pack_byte(bits)]);
        assert(out.drop_first() =~= Seq::<u8>::empty());
        assert(unpack(Seq::<u8>::empty()) == Seq::<bool>::empty());
        assert(low_bits(pack_byte(bits) as nat, 8) + Seq::<bool>::empty() =~= low_bits(
            pack_byte(bits) as nat,
            8,
        ));
        assert(unpack(out) =~= low_bits(pack_byte(bits) as nat, 8));
    } else {
        let head = bits.take(8);
        let rest = bits.skip(8);
        law_pack_round_trip(rest);
        lemma_pack_byte_bits(head);
        let out = pack_bytes(bits, false);
        assert(out == seq![pack_byte(head)] + pack_bytes(rest, false));
        assert(out.drop_first() == pack_bytes(rest, false));
        assert(head + zeros(0) =~= head);
        assert(rest.len() % 8 == bits.len() % 8);
        assert(bits =~= head + rest);
        assert(unpack(out) =~= bits + zeros(((8 - bits.len() % 8) % 8) as nat));
    }
}

/// Byte stuffing only inserts: taking out the `0x00` after each `0xFF`
/// gives the bytes without stuffing.
pub proof fn law_unstuff(bits: Seq<bool>)
    ensures
        unstuff(pack_bytes(bits, true)) == pack_bytes(bits, false),
    decreases bits.len(),
{
    if bits.len() == 0 {
    } else if bits.len() < 8 {
        let out = pack_bytes(bits, true);
        assert(out == seq![pack_byte(bits)]);
        assert(out.drop_first() =~= Seq::<u8>::empty());
        assert(unstuff(Seq::<u8>::empty()) == Seq::<u8>::empty());
        assert(unstuff(out) =~= seq![pack_byte(bits)]);
    } else {
        let head = bits.take(8);
        let rest = bits.skip(8);
        law_unstuff(rest);
        let b = pack_byte(head);
        let out = pack_bytes(bits, true);
        if b == 0xFF {
            assert(out == seq![b, 0u8] + pack_bytes(rest, true));
            assert(out.skip(2) =~= pack_bytes(rest, true));
        } else {
            assert(out == seq![b] + pack_bytes(rest, true));
            assert(out.drop_first() =~= pack_bytes(rest, true));
        }
        assert(unstuff(out) =~= pack_bytes(bits, false));
    }
}

/// With stuffing, every `0xFF` in the packed bytes is followed by a `0x00`,
/// so the coded data never holds a marker.
pub proof fn law_stuffing(bits: Seq<bool>)
    ensures
        forall|i: int|
            0 <= i < pack_bytes(bits, true).len() && #[trigger] pack_bytes(bits, true)[i] == 0xFF
                ==> i + 1 < pack_bytes(bits, true).len() && pack_bytes(bits, true)[i + 1] == 0,
    decreases bits.len(),
{
    let out = pack_bytes(bits, true);
    if bits.len() == 0 {
    } else if bits.len() < 8 {
        lemma_pack_byte_bits(bits);
        assert(out == seq![pack_byte(bits)]);
    } else {
        let head = bits.take(8);
        let rest = bits.skip(8);
        law_stuffing(rest);
        let b = pack_byte(head);
        let tail = pack_bytes(rest, true);
        assert forall|i: int| 0 <= i < out.len() && #[trigger] out[i] == 0xFF implies i + 1 < out.len()
            && out[i + 1] == 0 by {
            if b == 0xFF {
                assert(out == seq![b, 0u8] + tail);
                if i >= 2 {
                    assert(out[i] == tail[i - 2]);
                    assert(out[i + 1] == tail[i - 1]);
                }
            } else {
                assert(out == seq![b] + tail);
                if i >= 1 {
                    assert(out[i] == tail[i - 1]);
                    assert(out[i + 1] == tail[i]);
                }
            }
        }
    }
}

} // verus!
