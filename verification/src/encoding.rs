use vstd::prelude::*;

use crate::bitstream::{low_bits, msb_bits, pow2, BitStream};
use crate::huffman::{
    check_huffman, code_of, count, empty_lists, encode_single, huffman_fits, huffman_leaves,
    huffman_tree, leaf_vals, leaves_at, level_counts, models, perform_huffman_no_encoding,
    CodeTree, HuffmanTree,
};
use crate::laws::huffman_code::law_every_value_coded;
use crate::jpeg_format::JpegFormat;
use crate::JpegError;

verus! {

pub open spec fn abs(x: int) -> nat {
    if x < 0 {
        (-x) as nat
    } else {
        x as nat
    }
}

/// The number of bits needed to write `n`.
pub open spec fn bit_len(n: nat) -> nat
    decreases n,
{
    if n == 0 {
        0
    } else {
        1 + bit_len(n / 2)
    }
}

/// The magnitude category of a coefficient: the bit length of its absolute value.
pub open spec fn magnitude_size(nb: int) -> nat {
    bit_len(abs(nb))
}

/// The extra bits of a coefficient: the value itself when it is not
/// negative, the value plus `2^size - 1` (its ones' complement) when it is.
pub open spec fn magnitude_bits(nb: int) -> Seq<bool> {
    let t = magnitude_size(nb);
    let v = if nb >= 0 {
        nb
    } else {
        nb + pow2(t) - 1
    };
    low_bits(v as nat, t)
}

/// A coded symbol: the byte to be Huffman coded and the extra bits after it.
pub open spec fn symbols_view(v: Seq<(u8, BitStream)>) -> Seq<(u8, Seq<bool>)> {
    v.map_values(|p: (u8, BitStream)| (p.0, p.1@))
}

/// End of block.
pub open spec fn eob() -> (u8, Seq<bool>) {
    (0u8, Seq::empty())
}

/// Sixteen zero coefficients in a row.
pub open spec fn zrl() -> (u8, Seq<bool>) {
    (0xF0u8, Seq::empty())
}

/// The symbols of AC coefficients after `run` zeros: zeros are counted, a
/// run of sixteen gives a ZRL, and a nonzero coefficient gives the run in
/// the high half of its byte and its category in the low half.
pub open spec fn ac_symbols(ac: Seq<i16>, run: nat) -> Seq<(u8, Seq<bool>)>
    decreases ac.len(),
{
    if ac.len() == 0 {
        Seq::empty()
    } else if ac[0] == 0 {
        if run + 1 == 16 {
            seq![zrl()] + ac_symbols(ac.drop_first(), 0)
        } else {
            ac_symbols(ac.drop_first(), run + 1)
        }
    } else {
        seq![
            ((run * 16 + magnitude_size(ac[0] as int)) as u8, magnitude_bits(ac[0] as int)),
        ] + ac_symbols(ac.drop_first(), 0)
    }
}

/// The DC difference and the AC coefficients of a block are within the
/// categories baseline JPEG allows.
pub open spec fn mcu_in_range(mcu: Seq<i16>, last_dc: i16) -> bool {
    mcu.len() == 0 || ({
        &&& -2047 <= mcu[0] - last_dc <= 2047
        &&& forall|i: int| 1 <= i < mcu.len() ==> -1023 <= #[trigger] mcu[i] <= 1023
    })
}

/// The symbols of one block in zigzag order: the DC difference to
/// `last_dc`, the AC coefficients, and an end of block when the block has
/// fewer than 64 coefficients.
pub open spec fn mcu_symbols(mcu: Seq<i16>, last_dc: i16) -> Seq<(u8, Seq<bool>)> {
    if mcu.len() == 0 {
        seq![eob()]
    } else {
        let d = mcu[0] - last_dc;
        seq![(magnitude_size(d) as u8, magnitude_bits(d))] + ac_symbols(mcu.skip(1), 0) + (if mcu.len()
            < 64 {
            seq![eob()]
        } else {
            Seq::empty()
        })
    }
}

/// A number from `2^(t - 1)` up to below `2^t` has `t` bits.
pub proof fn lemma_bit_len(n: nat, t: nat)
    requires
        n < pow2(t),
        t == 0 || n >= pow2((t - 1) as nat),
    ensures
        bit_len(n) == t,
    decreases t,
{
    if t > 0 {
        assert(pow2(t) == 2 * pow2((t - 1) as nat));
        if t > 1 {
            assert(pow2((t - 1) as nat) == 2 * pow2((t - 2) as nat));
        } else {
            assert(pow2(0) == 1);
        }
        lemma_bit_len(n / 2, (t - 1) as nat);
    } else {
        assert(pow2(0) == 1);
    }
}

/// The magnitude category of `nb` and its extra bits; fails when `nb` is
/// outside `-max..=max`.
pub fn magnitude_code(nb: i16, max: i16) -> (res: Result<(u8, BitStream), JpegError>)
    requires
        -32768 < max,
        -max <= nb <= max ==> -16384 < nb < 16384,
    ensures
        match res {
            Ok((t, s)) => -max <= nb <= max && t == magnitude_size(nb as int) && s@
                == magnitude_bits(nb as int),
            Err(e) => (nb > max || nb < -max) && e == JpegError::OutOfRange,
        },
{
    if nb > max || nb < -max {
        return Err(JpegError::OutOfRange);
    }
    let a: i32 = if nb < 0 {
        -(nb as i32)
    } else {
        nb as i32
    };
    let mut temp: u8 = 0;
    let mut bound: i32 = 1;
    assert(pow2(0) == 1);
    while a >= bound
        invariant
            0 <= a <= 16383,
            a == abs(nb as int),
            1 <= bound <= 32768,
            bound == pow2(temp as nat),
            temp <= 15,
            temp == 0 || a >= pow2((temp - 1) as nat),
        decreases 32768 - bound,
    {
        assert(pow2((temp + 1) as nat) == 2 * pow2(temp as nat));
        proof {
            if temp == 15 {
                crate::bitstream::lemma_pow2_matches(15);
                vstd::arithmetic::power2::lemma2_to64();
            }
        }
        temp = temp + 1;
        bound = bound * 2;
    }
    proof {
        lemma_bit_len(a as nat, temp as nat);
    }
    let v: i32 = if nb < 0 {
        nb as i32 + bound - 1
    } else {
        nb as i32
    };
    let bits = msb_bits(v as u16, temp as usize);
    Ok((temp, BitStream { stream: bits }))
}

/// The symbols of one block given in zigzag order, its DC coefficient
/// coded as the difference to `last_dc`; fails when a value is outside its
/// category range.
pub fn single_mcu_encoding(mcu: &Vec<i16>, last_dc: i16) -> (res: Result<
    Vec<(u8, BitStream)>,
    JpegError,
>)
    requires
        mcu@.len() > 0 ==> -32768 <= mcu@[0] - last_dc <= 32767,
    ensures
        match res {
            Ok(v) => mcu_in_range(mcu@, last_dc) && symbols_view(v@) == mcu_symbols(mcu@, last_dc),
            Err(e) => !mcu_in_range(mcu@, last_dc) && e == JpegError::OutOfRange,
        },
{
    let mut output: Vec<(u8, BitStream)> = Vec::new();
    if mcu.len() == 0 {
        output.push((0x00, BitStream { stream: Vec::new() }));
        assert(symbols_view(output@) =~= mcu_symbols(mcu@, last_dc));
        return Ok(output);
    }
    let dc = match magnitude_code(mcu[0] - last_dc, 2047) {
        Ok(p) => p,
        Err(e) => {
            return Err(e);
        },
    };
    output.push(dc);
    let ghost first = symbols_view(output@);
    let ghost d = mcu@[0] - last_dc;
    assert(first =~= seq![(magnitude_size(d) as u8, magnitude_bits(d))]);
    let ghost target = ac_symbols(mcu@.skip(1), 0);
    let mut last: u8 = 0;
    let mut i: usize = 1;
    while i < mcu.len()
        invariant
            1 <= i <= mcu@.len(),
            last < 16,
            -2047 <= mcu@[0] - last_dc <= 2047,
            forall|j: int| 1 <= j < i ==> -1023 <= #[trigger] mcu@[j] <= 1023,
            symbols_view(output@) + ac_symbols(mcu@.skip(i as int), last as nat) == first + target,
        decreases mcu@.len() - i,
    {
        let byte = mcu[i];
        let ghost rest = mcu@.skip(i as int);
        assert(rest[0] == byte);
        assert(rest.drop_first() == mcu@.skip(i + 1));
        if byte == 0 {
            last = last + 1;
            if last == 16 {
                let ghost before = symbols_view(output@);
                output.push((0xF0, BitStream { stream: Vec::new() }));
                last = 0;
                assert(symbols_view(output@) == before.push(zrl()));
                assert(symbols_view(output@) + ac_symbols(mcu@.skip(i + 1), 0) == before + (seq![
                    zrl(),
                ] + ac_symbols(mcu@.skip(i + 1), 0)));
            }
        } else {
            let (mag, stream) = match magnitude_code(byte, 1023) {
                Ok(p) => p,
                Err(e) => {
                    assert(!(-1023 <= mcu@[i as int] <= 1023));
                    return Err(e);
                },
            };
            assert(last << 4u8 == last * 16) by (bit_vector)
                requires
                    last < 16,
            ;
            assert(mag <= 10) by {
                assert(abs(byte as int) < pow2(10)) by {
                    crate::bitstream::lemma_pow2_matches(10);
                    vstd::arithmetic::power2::lemma2_to64();
                }
                lemma_bit_len_le(abs(byte as int), 10);
            }
            let ghost before = symbols_view(output@);
            let ghost run = last;
            output.push(((last << 4) + mag, stream));
            last = 0;
            assert(symbols_view(output@) =~= before.push(
                ((run * 16 + magnitude_size(byte as int)) as u8, magnitude_bits(byte as int)),
            ));
            assert(ac_symbols(rest, run as nat) == seq![
                ((run * 16 + magnitude_size(byte as int)) as u8, magnitude_bits(byte as int)),
            ] + ac_symbols(mcu@.skip(i + 1), 0));
            assert(symbols_view(output@) + ac_symbols(mcu@.skip(i + 1), 0) =~= before + ac_symbols(
                rest,
                run as nat,
            ));
        }
        i = i + 1;
    }
    let ghost before = symbols_view(output@);
    if i < 64 {
        output.push((0x00, BitStream { stream: Vec::new() }));
    }
    assert(mcu@.skip(i as int) =~= Seq::<i16>::empty());
    assert(ac_symbols(mcu@.skip(i as int), last as nat) == Seq::<(u8, Seq<bool>)>::empty());
    assert(before =~= first + target);
    assert(symbols_view(output@) =~= mcu_symbols(mcu@, last_dc));
    Ok(output)
}

/// A number below `2^t` has at most `t` bits.
pub proof fn lemma_bit_len_le(n: nat, t: nat)
    requires
        n < pow2(t),
    ensures
        bit_len(n) <= t,
    decreases t,
{
    if t > 0 {
        assert(pow2(t) == 2 * pow2((t - 1) as nat));
        lemma_bit_len_le(n / 2, (t - 1) as nat);
    } else {
        assert(pow2(0) == 1);
    }
}


/// The DC coefficient of the last block before block `c` that belongs to
/// component `k` (blocks go round the components), or 0 if there is none.
pub open spec fn last_seen(data: Seq<Vec<i16>>, c: nat, k: int, comp: int) -> i16
    decreases c,
{
    if c == 0 {
        0
    } else if (c - 1) % comp == k {
        data[c - 1]@[0]
    } else {
        last_seen(data, (c - 1) as nat, k, comp)
    }
}

/// The DC value block `c` is coded against.
pub open spec fn prev_dc(data: Seq<Vec<i16>>, c: nat, comp: int) -> i16 {
    last_seen(data, c, (c as int) % comp, comp)
}

/// What `mcu_encoding` needs: a component count to go round, at most three
/// components in use, and each block reached (all blocks before it in range)
/// has a DC coefficient whose difference fits in an `i16`.
pub open spec fn mcus_fit(data: Seq<Vec<i16>>, comp: int) -> bool {
    &&& data.len() > 0 ==> comp > 0
    &&& forall|c: int| 0 <= c < data.len() ==> #[trigger] (c % comp) < 3
    &&& forall|c: int|
        0 <= c < data.len() && (forall|d: int|
            0 <= d < c ==> mcu_in_range(#[trigger] data[d]@, prev_dc(data, d as nat, comp))) ==> {
            &&& (#[trigger] data[c])@.len() > 0
            &&& -32768 <= data[c]@[0] - prev_dc(data, c as nat, comp) <= 32767
        }
}

/// Whether the block is within the categories baseline JPEG allows, its DC
/// coefficient coded against `last_dc`.
fn block_in_range(mcu: &Vec<i16>, last_dc: i16) -> (res: bool)
    ensures
        res == mcu_in_range(mcu@, last_dc),
{
    if mcu.len() == 0 {
        return true;
    }
    let d: i32 = mcu[0] as i32 - last_dc as i32;
    if d < -2047 || d > 2047 {
        return false;
    }
    let mut i: usize = 1;
    while i < mcu.len()
        invariant
            1 <= i <= mcu@.len(),
            forall|j: int| 1 <= j < i ==> -1023 <= #[trigger] mcu@[j] <= 1023,
        decreases mcu@.len() - i,
    {
        if mcu[i] < -1023 || mcu[i] > 1023 {
            return false;
        }
        i = i + 1;
    }
    true
}

/// Whether [`mcu_encoding`] can code these blocks with `comp` components.
pub fn check_mcus(data: &Vec<Vec<i16>>, comp: u8) -> (res: bool)
    ensures
        res == mcus_fit(data@, comp as int),
{
    let ghost cm = comp as int;
    if data.len() == 0 {
        return true;
    }
    if comp == 0 {
        return false;
    }
    if comp > 3 && data.len() > 3 {
        proof {
            vstd::arithmetic::div_mod::lemma_small_mod(3, cm as nat);
        }
        assert(3int % cm == 3);
        return false;
    }
    assert forall|c: int| 0 <= c < data@.len() implies #[trigger] (c % cm) < 3 by {
        vstd::arithmetic::div_mod::lemma_mod_bound(c, cm);
        if cm > 3 {
            assert(c < 3);
            vstd::arithmetic::div_mod::lemma_small_mod(c as nat, cm as nat);
        }
    }
    let n = comp as usize;
    let mut last_dc: [i16; 3] = [0; 3];
    let mut c: usize = 0;
    while c < data.len()
        invariant
            c <= data@.len(),
            cm == comp as int,
            n as int == cm,
            cm > 0,
            forall|e: int| 0 <= e < data@.len() ==> #[trigger] (e % cm) < 3,
            forall|k: int| 0 <= k < 3 ==> #[trigger] last_dc@[k] == last_seen(data@, c as nat, k, cm),
            forall|d: int|
                0 <= d < c ==> mcu_in_range(#[trigger] data@[d]@, prev_dc(data@, d as nat, cm)),
            forall|d: int|
                0 <= d < c ==> (#[trigger] data@[d])@.len() > 0 && -32768 <= data@[d]@[0]
                    - prev_dc(data@, d as nat, cm) <= 32767,
        decreases data@.len() - c,
    {
        let k = c % n;
        assert(k < 3);
        let mcu = &data[c];
        assert(prev_dc(data@, c as nat, cm) == last_dc@[k as int]);
        if mcu.len() == 0 {
            return false;
        }
        let diff: i32 = mcu[0] as i32 - last_dc[k] as i32;
        if diff < -32768 || diff > 32767 {
            return false;
        }
        if !block_in_range(mcu, last_dc[k]) {
            proof {
                assert forall|e: int|
                    0 <= e < data@.len() && (forall|d: int|
                        0 <= d < e ==> mcu_in_range(
                            #[trigger] data@[d]@,
                            prev_dc(data@, d as nat, cm),
                        )) implies {
                    &&& (#[trigger] data@[e])@.len() > 0
                    &&& -32768 <= data@[e]@[0] - prev_dc(data@, e as nat, cm) <= 32767
                } by {
                    if e > c {
                        assert(!mcu_in_range(data@[c as int]@, prev_dc(data@, c as nat, cm)));
                    }
                }
            }
            return true;
        }
        last_dc[k] = mcu[0];
        c = c + 1;
        proof {
            assert forall|j: int| 0 <= j < 3 implies #[trigger] last_dc@[j] == last_seen(
                data@,
                c as nat,
                j,
                cm,
            ) by {
                assert(last_seen(data@, c as nat, j, cm) == (if (c - 1) % cm == j {
                    data@[c - 1]@[0]
                } else {
                    last_seen(data@, (c - 1) as nat, j, cm)
                }));
            }
        }
    }
    true
}

/// The symbols of all blocks, each DC coefficient coded as the difference to
/// the one of the last block of the same component; fails when a value is
/// outside its category range.
pub fn mcu_encoding(data: Vec<Vec<i16>>, jpeg_format: &JpegFormat) -> (res: Result<
    Vec<Vec<(u8, BitStream)>>,
    JpegError,
>)
    requires
        mcus_fit(data@, jpeg_format.comp as int),
    ensures
        match res {
            Ok(v) => {
                &&& v@.len() == data@.len()
                &&& forall|c: int|
                    0 <= c < data@.len() ==> mcu_in_range(
                        #[trigger] data@[c]@,
                        prev_dc(data@, c as nat, jpeg_format.comp as int),
                    )
                &&& forall|c: int|
                    0 <= c < data@.len() ==> symbols_view((#[trigger] v@[c])@) == mcu_symbols(
                        data@[c]@,
                        prev_dc(data@, c as nat, jpeg_format.comp as int),
                    )
            },
            Err(e) => e == JpegError::OutOfRange && exists|c: int|
                0 <= c < data@.len() && !mcu_in_range(
                    #[trigger] data@[c]@,
                    prev_dc(data@, c as nat, jpeg_format.comp as int),
                ),
        },
{
    let comp = jpeg_format.comp as usize;
    let ghost cm = comp as int;
    let mut last_dc: [i16; 3] = [0; 3];
    let mut out: Vec<Vec<(u8, BitStream)>> = Vec::new();
    let mut c: usize = 0;
    while c < data.len()
        invariant
            c <= data@.len(),
            cm == jpeg_format.comp as int,
            comp == cm,
            mcus_fit(data@, cm),
            out@.len() == c,
            forall|k: int| 0 <= k < 3 ==> #[trigger] last_dc@[k] == last_seen(data@, c as nat, k, cm),
            forall|d: int|
                0 <= d < c ==> mcu_in_range(#[trigger] data@[d]@, prev_dc(data@, d as nat, cm)),
            forall|d: int|
                0 <= d < c ==> symbols_view((#[trigger] out@[d])@) == mcu_symbols(
                    data@[d]@,
                    prev_dc(data@, d as nat, cm),
                ),
        decreases data@.len() - c,
    {
        let k = c % comp;
        assert(k < 3);
        let mcu = &data[c];
        assert(mcu@.len() > 0);
        let res = single_mcu_encoding(mcu, last_dc[k]);
        last_dc[k] = mcu[0];
        match res {
            Ok(v) => {
                out.push(v);
            },
            Err(e) => {
                return Err(e);
            },
        }
        c = c + 1;
        proof {
            assert forall|j: int| 0 <= j < 3 implies #[trigger] last_dc@[j] == last_seen(
                data@,
                c as nat,
                j,
                cm,
            ) by {
                assert(last_seen(data@, c as nat, j, cm) == (if (c - 1) % cm == j {
                    data@[c - 1]@[0]
                } else {
                    last_seen(data@, (c - 1) as nat, j, cm)
                }));
            }
        }
    }
    Ok(out)
}

/// The DC symbols of the blocks of component `k` among the first `n` blocks.
pub open spec fn dc_part(datas: Seq<Vec<(u8, BitStream)>>, k: int, comp: int, n: nat) -> Seq<u8>
    decreases n,
{
    if n == 0 {
        Seq::empty()
    } else {
        let b = n - 1;
        dc_part(datas, k, comp, (n - 1) as nat) + (if b % comp == k && datas[b]@.len() > 0 {
            seq![datas[b]@[0].0]
        } else {
            Seq::empty()
        })
    }
}

/// The AC symbols of the blocks of component `k` among the first `n` blocks.
pub open spec fn ac_part(datas: Seq<Vec<(u8, BitStream)>>, k: int, comp: int, n: nat) -> Seq<u8>
    decreases n,
{
    if n == 0 {
        Seq::empty()
    } else {
        let b = n - 1;
        ac_part(datas, k, comp, (n - 1) as nat) + (if b % comp == k && datas[b]@.len() > 0 {
            datas[b]@.skip(1).map_values(|p: (u8, BitStream)| p.0)
        } else {
            Seq::empty()
        })
    }
}

/// Each nonempty block names a component among the first three.
pub open spec fn blocks_fit(datas: Seq<Vec<(u8, BitStream)>>, comp: int) -> bool {
    forall|b: int|
        0 <= b < datas.len() && (#[trigger] datas[b])@.len() > 0 ==> comp > 0 && b % comp < 3
}

/// Appends the symbols of one block to the lists of component `k`: the
/// first to the DC list, the others to the AC list.
fn separate_block(dc: &mut [Vec<u8>; 3], ac: &mut [Vec<u8>; 3], k: usize, v: &Vec<(u8, BitStream)>)
    requires
        k < 3,
        v@.len() > 0,
    ensures
        forall|j: int| 0 <= j < 3 && j != k ==> #[trigger] final(dc)@[j] == old(dc)@[j] && final(ac)@[j] == old(ac)@[j],
        final(dc)@[k as int]@ == old(dc)@[k as int]@ + seq![v@[0].0],
        final(ac)@[k as int]@ == old(ac)@[k as int]@ + v@.skip(1).map_values(|p: (u8, BitStream)| p.0),
{
    let ghost dc0 = dc@;
    let ghost ac0 = ac@;
    dc[k].push(v[0].0);
    let mut c: usize = 1;
    while c < v.len()
        invariant
            k < 3,
            1 <= c <= v@.len(),
            forall|j: int| 0 <= j < 3 && j != k ==> #[trigger] dc@[j] == dc0[j] && ac@[j] == ac0[j],
            dc@[k as int]@ == dc0[k as int]@ + seq![v@[0].0],
            ac@[k as int]@ == ac0[k as int]@ + v@.subrange(1, c as int).map_values(|p: (u8, BitStream)| p.0),
        decreases v@.len() - c,
    {
        let ghost before = ac@;
        ac[k].push(v[c].0);
        proof {
            assert forall|j: int| 0 <= j < 3 && j != k implies #[trigger] dc@[j] == dc0[j] && ac@[j] == ac0[j] by {
                assert(ac@[j] == before[j]);
            }
        }
        assert(v@.subrange(1, c + 1).map_values(|p: (u8, BitStream)| p.0) =~= v@.subrange(1, c as int).map_values(
            |p: (u8, BitStream)| p.0,
        ).push(v@[c as int].0));
        c = c + 1;
    }
    assert(v@.subrange(1, c as int) =~= v@.skip(1));
}

/// Splits the symbols by component: the first symbol of each block goes to
/// the DC list of its component, the others to its AC list.
pub fn huffman_separation(datas: &Vec<Vec<(u8, BitStream)>>, jpeg_format: &JpegFormat) -> (res: (
    [Vec<u8>; 3],
    [Vec<u8>; 3],
))
    requires
        blocks_fit(datas@, jpeg_format.comp as int),
    ensures
        forall|k: int|
            0 <= k < 3 ==> (#[trigger] res.0@[k])@ == dc_part(
                datas@,
                k,
                jpeg_format.comp as int,
                datas@.len(),
            ) && res.1@[k]@ == ac_part(datas@, k, jpeg_format.comp as int, datas@.len()),
{
    let ghost cm = jpeg_format.comp as int;
    let mut dc: [Vec<u8>; 3] = [Vec::new(), Vec::new(), Vec::new()];
    let mut ac: [Vec<u8>; 3] = [Vec::new(), Vec::new(), Vec::new()];
    let mut b: usize = 0;
    while b < datas.len()
        invariant
            b <= datas@.len(),
            cm == jpeg_format.comp as int,
            blocks_fit(datas@, cm),
            forall|k: int|
                0 <= k < 3 ==> (#[trigger] dc@[k])@ == dc_part(datas@, k, cm, b as nat) && ac@[k]@
                    == ac_part(datas@, k, cm, b as nat),
        decreases datas@.len() - b,
    {
        let v = &datas[b];
        let ghost dc0 = dc@;
        let ghost ac0 = ac@;
        if v.len() > 0 {
            assert(jpeg_format.comp > 0 && b % (jpeg_format.comp as usize) < 3);
            let k = b % jpeg_format.comp as usize;
            separate_block(&mut dc, &mut ac, k, v);
        }
        b = b + 1;
        proof {
            assert forall|k: int| 0 <= k < 3 implies (#[trigger] dc@[k])@ == dc_part(
                datas@,
                k,
                cm,
                b as nat,
            ) && ac@[k]@ == ac_part(datas@, k, cm, b as nat) by {
                assert(dc0[k]@ == dc_part(datas@, k, cm, (b - 1) as nat));
                assert(ac0[k]@ == ac_part(datas@, k, cm, (b - 1) as nat));
                if v@.len() > 0 && k == (b - 1) % cm {
                } else {
                    assert(dc@[k] == dc0[k]);
                    assert(ac@[k] == ac0[k]);
                    assert(dc0[k]@ + Seq::<u8>::empty() == dc0[k]@);
                    assert(ac0[k]@ + Seq::<u8>::empty() == ac0[k]@);
                }
            }
        }
    }
    (dc, ac)
}

/// The bits of the first `n` symbols of a block: each symbol's Huffman code
/// (the DC table for the first symbol, the AC table for the others)
/// followed by its extra bits.
pub open spec fn block_bits(
    block: Seq<(u8, BitStream)>,
    dc: Seq<CodeTree>,
    ac: Seq<CodeTree>,
    n: nat,
) -> Seq<bool>
    decreases n,
{
    if n == 0 {
        Seq::empty()
    } else {
        let c = n - 1;
        let table = if c == 0 {
            dc
        } else {
            ac
        };
        block_bits(block, dc, ac, (n - 1) as nat) + code_of(table, block[c].0).unwrap()
            + block[c].1@
    }
}

/// The tables of each component as models.
pub open spec fn tables_model(t: [Vec<HuffmanTree>; 3]) -> Seq<Seq<CodeTree>> {
    t@.map_values(|v: Vec<HuffmanTree>| models(v@))
}

/// The bits of the first `n` blocks, each coded with the tables of its component.
pub open spec fn data_bits(
    data: Seq<Vec<(u8, BitStream)>>,
    dcs: Seq<Seq<CodeTree>>,
    acs: Seq<Seq<CodeTree>>,
    comp: int,
    n: nat,
) -> Seq<bool>
    decreases n,
{
    if n == 0 {
        Seq::empty()
    } else {
        let b = n - 1;
        data_bits(data, dcs, acs, comp, (n - 1) as nat) + block_bits(
            data[b]@,
            dcs[b % comp],
            acs[b % comp],
            data[b]@.len(),
        )
    }
}

/// Every symbol has a code in the table it is coded with.
pub open spec fn codes_known(
    data: Seq<Vec<(u8, BitStream)>>,
    dcs: Seq<Seq<CodeTree>>,
    acs: Seq<Seq<CodeTree>>,
    comp: int,
) -> bool {
    &&& blocks_fit(data, comp)
    &&& forall|b: int, c: int|
        0 <= b < data.len() && 0 <= c < data[b]@.len() ==> (code_of(
            if c == 0 {
                dcs[b % comp]
            } else {
                acs[b % comp]
            },
            (#[trigger] data[b]@[c]).0,
        ) is Some)
}

/// The entropy-coded data: for each symbol its Huffman code from the table
/// of its block's component, then its extra bits.
pub fn encode_data(
    data: &Vec<Vec<(u8, BitStream)>>,
    huff_dc: [Vec<HuffmanTree>; 3],
    huff_ac: [Vec<HuffmanTree>; 3],
    jpeg_format: &JpegFormat,
) -> (res: Result<BitStream, JpegError>)
    requires
        codes_known(data@, tables_model(huff_dc), tables_model(huff_ac), jpeg_format.comp as int),
    ensures
        res matches Ok(s) && s@ == data_bits(
            data@,
            tables_model(huff_dc),
            tables_model(huff_ac),
            jpeg_format.comp as int,
            data@.len(),
        ),
{
    let ghost dcs = tables_model(huff_dc);
    let ghost acs = tables_model(huff_ac);
    let ghost cm = jpeg_format.comp as int;
    let mut res = BitStream { stream: Vec::new() };
    let mut b: usize = 0;
    while b < data.len()
        invariant
            b <= data@.len(),
            cm == jpeg_format.comp as int,
            dcs == tables_model(huff_dc),
            acs == tables_model(huff_ac),
            codes_known(data@, dcs, acs, cm),
            res@ == data_bits(data@, dcs, acs, cm, b as nat),
        decreases data@.len() - b,
    {
        let vec = &data[b];
        let ghost start = res@;
        let mut c: usize = 0;
        while c < vec.len()
            invariant
                b < data@.len(),
                vec == data@[b as int],
                c <= vec@.len(),
                cm == jpeg_format.comp as int,
                dcs == tables_model(huff_dc),
                acs == tables_model(huff_ac),
                codes_known(data@, dcs, acs, cm),
                res@ == start + block_bits(vec@, dcs[(b as int) % cm], acs[(b as int) % cm], c as nat),
            decreases vec@.len() - c,
        {
            let val = &vec[c];
            assert(code_of(
                if c == 0 {
                    dcs[(b as int) % cm]
                } else {
                    acs[(b as int) % cm]
                },
                data@[b as int]@[c as int].0,
            ) is Some);
            let k = b % jpeg_format.comp as usize;
            let temp = if c == 0 {
                encode_single(val.0, &huff_dc[k])
            } else {
                encode_single(val.0, &huff_ac[k])
            };
            let temp = match temp {
                Ok(t) => t,
                Err(_) => {
                    assert(false);
                    return Err(JpegError::HuffmanError);
                },
            };
            res.add_stream(&temp);
            res.add_stream(&val.1);
            c = c + 1;
            assert(res@ =~= start + block_bits(vec@, dcs[(b as int) % cm], acs[(b as int) % cm], c as nat));
        }
        b = b + 1;
    }
    Ok(res)
}

/// Every component in use has DC and AC symbols whose Huffman code can be
/// laid out for JPEG.
pub open spec fn components_fit(datas: Seq<Vec<(u8, BitStream)>>, comp: int) -> bool {
    forall|k: int|
        0 <= k < comp ==> huffman_fits(#[trigger] dc_part(datas, k, comp, datas.len()))
            && huffman_fits(ac_part(datas, k, comp, datas.len()))
}

/// The Huffman code of some symbols: its coded leaves, how many codes each
/// length has, and the symbols of each length.
pub open spec fn table_of(
    values: Seq<u8>,
    leaves: Vec<HuffmanTree>,
    deep: [u8; 16],
    symbols: [Vec<u8>; 16],
) -> bool {
    &&& models(leaves@) == huffman_leaves(huffman_tree(values))
    &&& deep@ == level_counts(huffman_tree(values))
    &&& forall|i: int|
        0 <= i < 16 ==> (#[trigger] symbols@[i])@ == leaf_vals(leaves_at(huffman_tree(values), i + 1))
}

/// A table left unused: no leaves, no codes, no symbols.
pub open spec fn unused_table(leaves: Vec<HuffmanTree>, deep: [u8; 16], symbols: [Vec<u8>; 16]) -> bool {
    &&& leaves@.len() == 0
    &&& deep@ == Seq::new(16, |i: int| 0u8)
    &&& forall|i: int| 0 <= i < 16 ==> (#[trigger] symbols@[i])@.len() == 0
}

/// The symbols of each component, their Huffman tables and the
/// entropy-coded data.
pub struct EntropyCode {
    pub dc: [Vec<u8>; 3],
    pub ac: [Vec<u8>; 3],
    pub huff_dc: [Vec<HuffmanTree>; 3],
    pub huff_ac: [Vec<HuffmanTree>; 3],
    pub deep_dc: [[u8; 16]; 3],
    pub deep_ac: [[u8; 16]; 3],
    pub symbol_dc: [[Vec<u8>; 16]; 3],
    pub symbol_ac: [[Vec<u8>; 16]; 3],
    pub data: BitStream,
}

/// A copy of a list of trees.
fn copy_trees(v: &Vec<HuffmanTree>) -> (res: Vec<HuffmanTree>)
    ensures
        models(res@) == models(v@),
{
    let mut res: Vec<HuffmanTree> = Vec::new();
    let mut i: usize = 0;
    while i < v.len()
        invariant
            i <= v@.len(),
            models(res@) == models(v@).take(i as int),
        decreases v@.len() - i,
    {
        let t = v[i].copy();
        let ghost before = res@;
        res.push(t);
        assert(res@ == before.push(t));
        assert(models(res@) =~= models(before).push(t@));
        i = i + 1;
        assert(models(res@) =~= models(v@).take(i as int));
    }
    assert(models(v@).take(i as int) =~= models(v@));
    res
}

proof fn lemma_count_at(values: Seq<u8>, i: int)
    requires
        0 <= i < values.len(),
    ensures
        count(values, values[i]) > 0,
    decreases values.len(),
{
    if i < values.len() - 1 {
        assert(values.drop_last()[i] == values[i]);
        lemma_count_at(values.drop_last(), i);
    }
}

proof fn lemma_parts_hold(datas: Seq<Vec<(u8, BitStream)>>, k: int, comp: int, n: nat, b: int, c: int)
    requires
        0 <= b < n <= datas.len(),
        b % comp == k,
        0 <= c < datas[b]@.len(),
    ensures
        c == 0 ==> exists|i: int|
            0 <= i < dc_part(datas, k, comp, n).len() && #[trigger] dc_part(datas, k, comp, n)[i]
                == datas[b]@[c].0,
        c > 0 ==> exists|i: int|
            0 <= i < ac_part(datas, k, comp, n).len() && #[trigger] ac_part(datas, k, comp, n)[i]
                == datas[b]@[c].0,
    decreases n,
{
    let m = (n - 1) as nat;
    let pd = dc_part(datas, k, comp, m);
    let pa = ac_part(datas, k, comp, m);
    if b == m {
        if c == 0 {
            assert(dc_part(datas, k, comp, n)[pd.len() as int] == datas[b]@[0].0);
        } else {
            let tail = datas[b]@.skip(1).map_values(|p: (u8, BitStream)| p.0);
            assert(ac_part(datas, k, comp, n) == pa + tail);
            assert(ac_part(datas, k, comp, n)[pa.len() + c - 1] == datas[b]@[c].0);
        }
    } else {
        lemma_parts_hold(datas, k, comp, m, b, c);
        if c == 0 {
            let i = choose|i: int| 0 <= i < pd.len() && #[trigger] pd[i] == datas[b]@[c].0;
            assert(dc_part(datas, k, comp, n)[i] == pd[i]);
        } else {
            let i = choose|i: int| 0 <= i < pa.len() && #[trigger] pa[i] == datas[b]@[c].0;
            assert(ac_part(datas, k, comp, n)[i] == pa[i]);
        }
    }
}

/// Splits the symbols by component, builds the Huffman tables of each
/// component in use and codes the data with them; `None` when the Huffman
/// code of some component cannot be laid out for JPEG.
#[verifier::rlimit(40)]
pub fn entropy_code(datas: &Vec<Vec<(u8, BitStream)>>, jpeg_format: &JpegFormat) -> (res: Option<
    EntropyCode,
>)
    requires
        jpeg_format.comp <= 3,
        blocks_fit(datas@, jpeg_format.comp as int),
    ensures
        res is Some <==> components_fit(datas@, jpeg_format.comp as int),
        res matches Some(e) ==> {
            &&& forall|k: int|
                0 <= k < 3 ==> (#[trigger] e.dc@[k])@ == dc_part(
                    datas@,
                    k,
                    jpeg_format.comp as int,
                    datas@.len(),
                ) && e.ac@[k]@ == ac_part(datas@, k, jpeg_format.comp as int, datas@.len())
            &&& forall|k: int|
                0 <= k < jpeg_format.comp ==> table_of(
                    e.dc@[k]@,
                    #[trigger] e.huff_dc@[k],
                    e.deep_dc@[k],
                    e.symbol_dc@[k],
                ) && table_of(e.ac@[k]@, e.huff_ac@[k], e.deep_ac@[k], e.symbol_ac@[k])
            &&& forall|k: int|
                jpeg_format.comp <= k < 3 ==> unused_table(
                    #[trigger] e.huff_dc@[k],
                    e.deep_dc@[k],
                    e.symbol_dc@[k],
                ) && unused_table(e.huff_ac@[k], e.deep_ac@[k], e.symbol_ac@[k])
            &&& e.data@ == data_bits(
                datas@,
                tables_model(e.huff_dc),
                tables_model(e.huff_ac),
                jpeg_format.comp as int,
                datas@.len(),
            )
        },
{
    let ghost cm = jpeg_format.comp as int;
    let (dc, ac) = huffman_separation(datas, jpeg_format);
    let comp = jpeg_format.comp as usize;
    let mut huff_dc: [Vec<HuffmanTree>; 3] = [Vec::new(), Vec::new(), Vec::new()];
    let mut huff_ac: [Vec<HuffmanTree>; 3] = [Vec::new(), Vec::new(), Vec::new()];
    let zero16: [u8; 16] = [0u8; 16];
    assert(zero16@ =~= Seq::new(16, |i: int| 0u8));
    let mut deep_dc: [[u8; 16]; 3] = [zero16, zero16, zero16];
    let mut deep_ac: [[u8; 16]; 3] = [zero16, zero16, zero16];
    let mut symbol_dc: [[Vec<u8>; 16]; 3] = [empty_lists(), empty_lists(), empty_lists()];
    let mut symbol_ac: [[Vec<u8>; 16]; 3] = [empty_lists(), empty_lists(), empty_lists()];
    let mut k: usize = 0;
    while k < comp
        invariant
            k <= comp <= 3,
            comp as int == cm,
            cm == jpeg_format.comp as int,
            forall|j: int| 0 <= j < 3 ==> (#[trigger] dc@[j])@ == dc_part(datas@, j, cm, datas@.len())
                && ac@[j]@ == ac_part(datas@, j, cm, datas@.len()),
            forall|j: int|
                0 <= j < k ==> table_of(dc@[j]@, #[trigger] huff_dc@[j], deep_dc@[j], symbol_dc@[j])
                    && table_of(ac@[j]@, huff_ac@[j], deep_ac@[j], symbol_ac@[j]),
            forall|j: int|
                k <= j < 3 ==> unused_table(#[trigger] huff_dc@[j], deep_dc@[j], symbol_dc@[j])
                    && unused_table(huff_ac@[j], deep_ac@[j], symbol_ac@[j]),
            forall|j: int| 0 <= j < k ==> huffman_fits(#[trigger] dc_part(datas@, j, cm, datas@.len()))
                && huffman_fits(ac_part(datas@, j, cm, datas@.len())),
            forall|j: int| 0 <= j < k ==> (#[trigger] dc@[j])@.len() <= usize::MAX && ac@[j]@.len() <= usize::MAX,
        decreases comp - k,
    {
        assert(dc@[k as int]@ == dc_part(datas@, k as int, cm, datas@.len()));
        assert(ac@[k as int]@ == ac_part(datas@, k as int, cm, datas@.len()));
        let _dc_len: usize = dc[k].len();
        let _ac_len: usize = ac[k].len();
        let okd = check_huffman(&dc[k]);
        let oka = check_huffman(&ac[k]);
        if !okd || !oka {
            proof {
                assert(!huffman_fits(dc_part(datas@, k as int, cm, datas@.len())) || !huffman_fits(
                    ac_part(datas@, k as int, cm, datas@.len()),
                ));
                if components_fit(datas@, cm) {
                    assert(huffman_fits(dc_part(datas@, k as int, cm, datas@.len())));
                    assert(huffman_fits(ac_part(datas@, k as int, cm, datas@.len())));
                }
            }
            return None;
        }
        let (ld, dd, sd) = match perform_huffman_no_encoding(&dc[k]) {
            Ok(r) => r,
            Err(_) => {
                assert(false);
                return None;
            },
        };
        let (la, da, sa) = match perform_huffman_no_encoding(&ac[k]) {
            Ok(r) => r,
            Err(_) => {
                assert(false);
                return None;
            },
        };
        let ghost hd0 = huff_dc@;
        let ghost ha0 = huff_ac@;
        let ghost dd0 = deep_dc@;
        let ghost da0 = deep_ac@;
        let ghost sd0 = symbol_dc@;
        let ghost sa0 = symbol_ac@;
        huff_dc[k] = ld;
        huff_ac[k] = la;
        deep_dc[k] = dd;
        deep_ac[k] = da;
        symbol_dc[k] = sd;
        symbol_ac[k] = sa;
        proof {
            assert forall|j: int| 0 <= j < 3 && j != k implies huff_dc@[j] == hd0[j] && huff_ac@[j]
                == ha0[j] && deep_dc@[j] == dd0[j] && deep_ac@[j] == da0[j] && symbol_dc@[j]
                == sd0[j] && symbol_ac@[j] == sa0[j] by {}
        }
        k = k + 1;
    }
    let d0 = copy_trees(&huff_dc[0]);
    let d1 = copy_trees(&huff_dc[1]);
    let d2 = copy_trees(&huff_dc[2]);
    let a0 = copy_trees(&huff_ac[0]);
    let a1 = copy_trees(&huff_ac[1]);
    let a2 = copy_trees(&huff_ac[2]);
    let out_dc = [d0, d1, d2];
    let out_ac = [a0, a1, a2];
    proof {
        assert forall|j: int| 0 <= j < 3 implies models((#[trigger] out_dc@[j])@) == models(
            huff_dc@[j]@,
        ) && models(out_ac@[j]@) == models(huff_ac@[j]@) && out_dc@[j]@.len() == huff_dc@[j]@.len()
            && out_ac@[j]@.len() == huff_ac@[j]@.len() by {
            if j == 0 {
                assert(out_dc@[j] == d0 && out_ac@[j] == a0);
            } else if j == 1 {
                assert(out_dc@[j] == d1 && out_ac@[j] == a1);
            } else {
                assert(out_dc@[j] == d2 && out_ac@[j] == a2);
            }
            assert(models(out_dc@[j]@).len() == out_dc@[j]@.len());
            assert(models(huff_dc@[j]@).len() == huff_dc@[j]@.len());
            assert(models(out_ac@[j]@).len() == out_ac@[j]@.len());
            assert(models(huff_ac@[j]@).len() == huff_ac@[j]@.len());
        }
        assert(tables_model(out_dc) =~= tables_model(huff_dc));
        assert(tables_model(out_ac) =~= tables_model(huff_ac));
        let dcs = tables_model(huff_dc);
        let acs = tables_model(huff_ac);
        assert forall|b: int, c: int|
            0 <= b < datas@.len() && 0 <= c < datas@[b]@.len() implies (code_of(
            if c == 0 {
                dcs[b % cm]
            } else {
                acs[b % cm]
            },
            (#[trigger] datas@[b]@[c]).0,
        ) is Some) by {
            let j = b % cm;
            assert(cm > 0 && j < 3);
            vstd::arithmetic::div_mod::lemma_mod_bound(b, cm);
            lemma_parts_hold(datas@, j, cm, datas@.len(), b, c);
            let v = datas@[b]@[c].0;
            if c == 0 {
                let vals = dc_part(datas@, j, cm, datas@.len());
                let i = choose|i: int| 0 <= i < vals.len() && #[trigger] vals[i] == v;
                lemma_count_at(vals, i);
                assert(vals == dc@[j]@);
                assert(usize::MAX <= u64::MAX);
                law_every_value_coded(vals, v);
                assert(dcs[j] == models(huff_dc@[j]@));
            } else {
                let vals = ac_part(datas@, j, cm, datas@.len());
                let i = choose|i: int| 0 <= i < vals.len() && #[trigger] vals[i] == v;
                lemma_count_at(vals, i);
                assert(vals == ac@[j]@);
                assert(usize::MAX <= u64::MAX);
                law_every_value_coded(vals, v);
                assert(acs[j] == models(huff_ac@[j]@));
            }
        }
    }
    let data = match encode_data(datas, huff_dc, huff_ac, jpeg_format) {
        Ok(s) => s,
        Err(_) => {
            assert(false);
            return None;
        },
    };
    Some(
        EntropyCode {
            dc,
            ac,
            huff_dc: out_dc,
            huff_ac: out_ac,
            deep_dc,
            deep_ac,
            symbol_dc,
            symbol_ac,
            data,
        },
    )
}

} // verus!
