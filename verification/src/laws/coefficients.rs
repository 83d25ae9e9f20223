use vstd::prelude::*;

use crate::bitstream::{bits_value, lemma_low_bits_len, lemma_low_bits_value, pow2};
use crate::bloc::{
    lemma_quant_data_entry, quant_data, quant_ok, quotient, row_entry, zig_order, zigzag_seq,
    zigzag_trim,
};
use crate::text::{decimal_upto, split_spaces};
use crate::encoding::{
    abs, ac_symbols, bit_len, eob, last_seen, lemma_bit_len_le, magnitude_bits, magnitude_size, mcu_in_range,
    mcu_symbols, prev_dc, zrl,
};

verus! {

/// The coefficient a decoder reads from a magnitude category `t` and its
/// extra bits: a leading one bit means the value itself, a leading zero bit
/// a negative value stored in ones' complement.
pub open spec fn magnitude_value(t: nat, bits: Seq<bool>) -> int {
    let v = bits_value(bits);
    if t == 0 {
        0
    } else if v >= pow2((t - 1) as nat) {
        v as int
    } else {
        v - pow2(t) + 1
    }
}

proof fn lemma_bit_len_bounds(n: nat)
    ensures
        n == 0 ==> bit_len(n) == 0,
        n > 0 ==> bit_len(n) >= 1 && pow2((bit_len(n) - 1) as nat) <= n < pow2(bit_len(n)),
    decreases n,
{
    if n > 0 {
        lemma_bit_len_bounds(n / 2);
        let b = bit_len(n / 2);
        assert(bit_len(n) == 1 + b);
        assert(pow2(b + 1) == 2 * pow2(b));
        if n / 2 == 0 {
            assert(pow2(0) == 1);
        } else {
            assert(pow2(b) == 2 * pow2((b - 1) as nat));
        }
    }
}

/// The magnitude category and extra bits of a coefficient give the
/// coefficient back: the coding of DC differences and AC values loses
/// nothing.
pub proof fn law_magnitude_round_trip(nb: int)
    ensures
        magnitude_bits(nb).len() == magnitude_size(nb),
        magnitude_value(magnitude_size(nb), magnitude_bits(nb)) == nb,
{
    let a = abs(nb);
    let t = magnitude_size(nb);
    lemma_bit_len_bounds(a);
    let v = if nb >= 0 {
        nb
    } else {
        nb + pow2(t) - 1
    };
    if a == 0 {
        assert(pow2(0) == 1);
        assert(v == 0);
    } else {
        assert(pow2(t) == 2 * pow2((t - 1) as nat));
    }
    assert(0 <= v < pow2(t));
    lemma_low_bits_len(v as nat, t);
    lemma_low_bits_value(v as nat, t);
}

/// Dividing by a quantization table of ones changes nothing: the table
/// `one` applies no quantization.
pub proof fn law_quant_by_one(x: int)
    ensures
        quotient(x, 1) == x,
{
}

/// The zigzag order visits every position of a block exactly once.
pub proof fn law_zig_order_permutation()
    ensures
        zig_order().len() == 64,
        forall|i: int| 0 <= i < 64 ==> #[trigger] zig_order()[i] < 64,
        forall|i: int, j: int|
            0 <= i < 64 && 0 <= j < 64 && i != j ==> #[trigger] zig_order()[i] != #[trigger] zig_order()[j],
{
    let z = zig_order();
    let inv = seq![
        0int, 1, 5, 6, 14, 15, 27, 28, 2, 4, 7, 13, 16, 26, 29, 42, 3, 8, 12, 17, 25, 30, 41, 43, 9,
        11, 18, 24, 31, 40, 44, 53, 10, 19, 23, 32, 39, 45, 52, 54, 20, 22, 33, 38, 46, 51, 55, 60,
        21, 34, 37, 47, 50, 56, 59, 61, 35, 36, 48, 49, 57, 58, 62, 63,
    ];
    assert forall|i: int| 0 <= i < 64 implies #[trigger] z[i] < 64 && inv[z[i] as int] == i by {
        assert(z[i] < 64 && inv[z[i] as int] == i);
    }
}

/// A quantization table file is read row by row: line `l` fills row `l`,
/// its `k`-th number going to column `k % 8` (a later number at the same
/// column wins, a column the line does not reach stays 0); a line of
/// exactly eight numbers gives row `l` those numbers in order.
pub proof fn law_quant_rows(lines: Seq<Vec<u8>>, l: int, c: int)
    requires
        quant_ok(lines),
        0 <= l < 8,
        0 <= c < 8,
    ensures
        quant_data(lines, 8)[8 * l + c] == row_entry(split_spaces(lines[l]@), c),
        split_spaces(lines[l]@).len() == 8 ==> quant_data(lines, 8)[8 * l + c] == decimal_upto(
            split_spaces(lines[l]@)[c],
            255,
        ).unwrap() as u8,
{
    let p = 8 * l + c;
    assert(p / 8 == l && p % 8 == c);
    lemma_quant_data_entry(lines, 8, p);
    assert(c + 8 * ((8 - 1 - c) / 8) == c);
}

/// The place of position `p` of a block (row by row) on the zigzag walk:
/// the walk takes the antidiagonals `r + c` one after the other, going down
/// the rows on the odd ones and up the rows on the even ones.
pub open spec fn zigzag_rank(p: int) -> int {
    let r = p / 8;
    let c = p % 8;
    let s = r + c;
    s * 8 + if s % 2 == 1 {
        r
    } else {
        7 - r
    }
}

/// The zigzag order is the zigzag walk: along the order, every position
/// comes later on the walk than all those read before it (with
/// [`law_zig_order_permutation`], this fixes the order entry by entry).
pub proof fn law_zig_order_walk()
    ensures
        forall|i: int, j: int|
            0 <= i < j < 64 ==> zigzag_rank(#[trigger] zig_order()[i] as int) < zigzag_rank(
                #[trigger] zig_order()[j] as int,
            ),
{
    let z = zig_order();
    assert forall|k: int| 0 <= k < 63 implies zigzag_rank(#[trigger] z[k] as int) < zigzag_rank(
        z[k + 1] as int,
    ) by {
        assert(zigzag_rank(z[k] as int) < zigzag_rank(z[k + 1] as int));
    }
    assert forall|i: int, j: int| 0 <= i < j < 64 implies zigzag_rank(#[trigger] z[i] as int)
        < zigzag_rank(#[trigger] z[j] as int) by {
        lemma_rank_chain(i, j);
    }
}

proof fn lemma_rank_chain(i: int, j: int)
    requires
        0 <= i < j < 64,
        forall|k: int| 0 <= k < 63 ==> zigzag_rank(#[trigger] zig_order()[k] as int) < zigzag_rank(
            zig_order()[k + 1] as int,
        ),
    ensures
        zigzag_rank(zig_order()[i] as int) < zigzag_rank(zig_order()[j] as int),
    decreases j - i,
{
    if j > i + 1 {
        lemma_rank_chain(i, j - 1);
        assert(zigzag_rank(zig_order()[j - 1] as int) < zigzag_rank(zig_order()[j] as int));
    }
}

/// Zigzag reordering without trailing zeros only drops zeros: what it keeps
/// is the start of the block in zigzag order, and every coefficient after
/// it is zero.
pub proof fn law_zigzag_drops_only_zeros(data: Seq<i16>)
    requires
        data.len() == 64,
    ensures
        ({
            let kept = zigzag_trim(data, Seq::new(64, |k: int| data[k] == 0));
            &&& 1 <= kept.len() <= 64
            &&& forall|i: int| 0 <= i < kept.len() ==> kept[i] == zigzag_seq(data)[i]
            &&& forall|i: int| kept.len() <= i < 64 ==> zigzag_seq(data)[i] == 0
        }),
{
    law_zig_order_permutation();
    let zero = Seq::new(64, |k: int| data[k] == 0);
    crate::bloc::lemma_zigzag_trim(data, zero);
    let kept = zigzag_trim(data, zero);
    assert forall|i: int| kept.len() <= i < 64 implies zigzag_seq(data)[i] == 0 by {
        assert(zigzag_seq(zero)[i]);
        assert(zigzag_seq(zero)[i] == zero[zig_order()[i] as int]);
        assert(zigzag_seq(data)[i] == data[zig_order()[i] as int]);
    }
}

proof fn lemma_mod_apart(n: int, c: int, comp: int)
    requires
        comp > 0,
        0 <= c < n < c + comp,
    ensures
        n % comp != c % comp,
{
    vstd::arithmetic::div_mod::lemma_fundamental_div_mod(n, comp);
    vstd::arithmetic::div_mod::lemma_fundamental_div_mod(c, comp);
    let q1 = n / comp;
    let q2 = c / comp;
    if n % comp == c % comp {
        assert(n - c == comp * (q1 - q2)) by (nonlinear_arith)
            requires
                n == comp * q1 + n % comp,
                c == comp * q2 + c % comp,
                n % comp == c % comp,
        ;
        assert(false) by (nonlinear_arith)
            requires
                n - c == comp * (q1 - q2),
                0 < n - c < comp,
                comp > 0,
        ;
    }
}

proof fn lemma_last_seen_none(data: Seq<Vec<i16>>, n: nat, k: int, comp: int)
    requires
        comp > 0,
        0 <= k < comp,
        n <= k,
    ensures
        last_seen(data, n, k, comp) == 0,
    decreases n,
{
    if n > 0 {
        vstd::arithmetic::div_mod::lemma_small_mod((n - 1) as nat, comp as nat);
        lemma_last_seen_none(data, (n - 1) as nat, k, comp);
    }
}

proof fn lemma_last_seen_since(data: Seq<Vec<i16>>, c: nat, n: nat, comp: int)
    requires
        comp > 0,
        c < n <= c + comp,
    ensures
        last_seen(data, n, (c as int) % comp, comp) == data[c as int]@[0],
    decreases n,
{
    if n > c + 1 {
        lemma_last_seen_since(data, c, (n - 1) as nat, comp);
        lemma_mod_apart(n - 1, c as int, comp);
    }
}

/// DC prediction: the first block of each component is coded against 0,
/// and every later block against the DC coefficient of the block of its
/// component before it, `comp` blocks earlier.
pub proof fn law_dc_prediction(data: Seq<Vec<i16>>, c: nat, comp: int)
    requires
        comp > 0,
    ensures
        c < comp ==> prev_dc(data, c, comp) == 0,
        prev_dc(data, c + comp as nat, comp) == data[c as int]@[0],
{
    if c < comp {
        vstd::arithmetic::div_mod::lemma_small_mod(c, comp as nat);
        lemma_last_seen_none(data, c, c as int, comp);
    }
    lemma_last_seen_since(data, c, c + comp as nat, comp);
    vstd::arithmetic::div_mod::lemma_mod_add_multiples_vanish(c as int, comp);
}

/// `n` zero coefficients.
pub open spec fn int_zeros(n: nat) -> Seq<int> {
    Seq::new(n, |i: int| 0int)
}

/// Coefficients as integers.
pub open spec fn as_ints(s: Seq<i16>) -> Seq<int> {
    s.map_values(|v: i16| v as int)
}

/// What a decoder reads from AC symbols: each symbol `(run << 4) | size`
/// stands for `run` zeros and then the coefficient coded in `size` extra
/// bits (ZRL, `0xF0`, is fifteen zeros and a zero); the end of block, `0x00`,
/// ends the block.
pub open spec fn decode_ac(syms: Seq<(u8, Seq<bool>)>) -> Seq<int>
    decreases syms.len(),
{
    if syms.len() == 0 || syms[0].0 == 0 {
        Seq::empty()
    } else {
        int_zeros((syms[0].0 / 16) as nat) + seq![
            magnitude_value((syms[0].0 % 16) as nat, syms[0].1),
        ] + decode_ac(syms.drop_first())
    }
}

/// What a decoder reads from the symbols of a block: the DC difference to
/// `last_dc`, then the AC coefficients.
pub open spec fn decode_block(syms: Seq<(u8, Seq<bool>)>, last_dc: i16) -> Seq<int> {
    if syms.len() == 0 {
        Seq::empty()
    } else {
        seq![magnitude_value(syms[0].0 as nat, syms[0].1) + last_dc] + decode_ac(syms.drop_first())
    }
}

proof fn lemma_small_size(v: int, t: nat)
    requires
        abs(v) < pow2(t),
    ensures
        magnitude_size(v) <= t,
{
    lemma_bit_len_le(abs(v), t);
}

#[verifier::spinoff_prover]
proof fn lemma_decode_ac(ac: Seq<i16>, run: nat, tail: Seq<(u8, Seq<bool>)>) -> (k: int)
    requires
        run < 16,
        forall|i: int| 0 <= i < ac.len() ==> -1023 <= #[trigger] ac[i] <= 1023,
        decode_ac(tail) == Seq::<int>::empty(),
    ensures
        0 <= k <= run + ac.len(),
        decode_ac(ac_symbols(ac, run) + tail) == (int_zeros(run) + as_ints(ac)).take(k),
        forall|i: int| k <= i < run + ac.len() ==> #[trigger] (int_zeros(run) + as_ints(ac))[i] == 0,
    decreases ac.len(),
{
    let full = int_zeros(run) + as_ints(ac);
    if ac.len() == 0 {
        assert(ac_symbols(ac, run) + tail =~= tail);
        assert(full.take(0) =~= Seq::<int>::empty());
        0
    } else {
        let rest = ac.drop_first();
        assert forall|i: int| 0 <= i < rest.len() implies -1023 <= #[trigger] rest[i] <= 1023 by {
            assert(rest[i] == ac[i + 1]);
        }
        if ac[0] == 0 {
            if run + 1 == 16 {
                let k1 = lemma_decode_ac(rest, 0, tail);
                let syms = ac_symbols(ac, run) + tail;
                assert(syms =~= seq![zrl()] + (ac_symbols(rest, 0) + tail));
                assert(syms.drop_first() =~= ac_symbols(rest, 0) + tail);
                let sub = int_zeros(0) + as_ints(rest);
                assert(sub =~= as_ints(rest));
                assert(full =~= int_zeros(16) + as_ints(rest));
                assert(decode_ac(syms) =~= full.take(16 + k1));
                assert forall|i: int| 16 + k1 <= i < run + ac.len() implies #[trigger] full[i]
                    == 0 by {
                    assert(full[i] == sub[i - 16]);
                }
                16 + k1
            } else {
                let k1 = lemma_decode_ac(rest, run + 1, tail);
                let sub = int_zeros(run + 1) + as_ints(rest);
                assert(sub =~= full);
                k1
            }
        } else {
            let v = ac[0] as int;
            let t = magnitude_size(v);
            assert(pow2(10) == 1024) by {
                reveal_with_fuel(pow2, 11);
            }
            lemma_small_size(v, 10);
            law_magnitude_round_trip(v);
            if t == 0 {
                assert(bit_len(abs(v)) == 0);
                assert(abs(v) > 0);
                assert(bit_len(abs(v)) == 1 + bit_len(abs(v) / 2));
            }
            let rs = (run * 16 + t) as u8;
            assert(rs as int == run * 16 + t);
            assert(rs / 16 == run && rs % 16 == t);
            let k1 = lemma_decode_ac(rest, 0, tail);
            let syms = ac_symbols(ac, run) + tail;
            assert(syms =~= seq![(rs, magnitude_bits(v))] + (ac_symbols(rest, 0) + tail));
            assert(syms.drop_first() =~= ac_symbols(rest, 0) + tail);
            let sub = int_zeros(0) + as_ints(rest);
            assert(sub =~= as_ints(rest));
            assert(full =~= int_zeros(run) + seq![v] + as_ints(rest));
            assert(decode_ac(syms) =~= full.take(run + 1 + k1));
            assert forall|i: int| run + 1 + k1 <= i < run + ac.len() implies #[trigger] full[i]
                == 0 by {
                assert(full[i] == sub[i - run - 1]);
            }
            run + 1 + k1
        }
    }
}

/// Decoding the symbols of a block gives the block back: the decoder reads
/// the coefficients in zigzag order up to the last one coded, and every
/// coefficient after it is zero, as the end of block says.
pub proof fn law_block_round_trip(mcu: Seq<i16>, last_dc: i16)
    requires
        1 <= mcu.len() <= 64,
        mcu_in_range(mcu, last_dc),
    ensures
        ({
            let out = decode_block(mcu_symbols(mcu, last_dc), last_dc);
            &&& 1 <= out.len() <= mcu.len()
            &&& out == as_ints(mcu).take(out.len() as int)
            &&& forall|i: int| out.len() <= i < mcu.len() ==> mcu[i] == 0
        }),
{
    let d = mcu[0] - last_dc;
    let ac = mcu.skip(1);
    assert forall|i: int| 0 <= i < ac.len() implies -1023 <= #[trigger] ac[i] <= 1023 by {
        assert(ac[i] == mcu[i + 1]);
    }
    let tail: Seq<(u8, Seq<bool>)> = if mcu.len() < 64 {
        seq![eob()]
    } else {
        Seq::empty()
    };
    assert(decode_ac(tail) == Seq::<int>::empty());
    let k = lemma_decode_ac(ac, 0, tail);
    assert(pow2(11) == 2048) by {
        reveal_with_fuel(pow2, 12);
    }
    lemma_small_size(d, 11);
    law_magnitude_round_trip(d);
    let syms = mcu_symbols(mcu, last_dc);
    let dsym = (magnitude_size(d) as u8, magnitude_bits(d));
    assert(syms =~= seq![dsym] + (ac_symbols(ac, 0) + tail));
    assert(syms.drop_first() =~= ac_symbols(ac, 0) + tail);
    let full = int_zeros(0) + as_ints(ac);
    assert(full =~= as_ints(ac));
    let out = decode_block(syms, last_dc);
    assert(out =~= seq![mcu[0] as int] + full.take(k));
    assert(out =~= as_ints(mcu).take(1 + k));
    assert forall|i: int| out.len() <= i < mcu.len() implies mcu[i] == 0 by {
        assert(full[i - 1] == 0);
        assert(mcu[i] == ac[i - 1]);
    }
}

} // verus!
