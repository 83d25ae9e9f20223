use vstd::prelude::*;

use crate::jpeg_format::JpegFormat;
use crate::text::{decimal_upto, parse_decimal, split_spaces};
use crate::JpegError;

verus! {

/// An 8x8 block of samples or coefficients, row by row.
pub struct Bloc<T> {
    pub data: [T; 64],
}

/// `num_traits::ToPrimitive::to_i16` on an `i16`: num-traits converts
/// between integer types of the same size without a check, so the result
/// is the value itself.
#[verifier::external_body]
fn i16_to_i16(x: i16) -> (res: Option<i16>)
    ensures
        res == Some(x),
{
    num_traits::ToPrimitive::to_i16(&x)
}

/// `num_traits::ToPrimitive::to_i16` on a `u8`: num-traits converts from a
/// smaller unsigned type without a check, so the result is the value itself.
#[verifier::external_body]
fn u8_to_i16(x: u8) -> (res: Option<i16>)
    ensures
        res == Some(x as i16),
{
    num_traits::ToPrimitive::to_i16(&x)
}

/// Division rounding toward zero, as integer division does.
pub open spec fn quotient(a: int, b: int) -> int {
    if a >= 0 {
        a / b
    } else {
        -((-a) / b)
    }
}

/// The zigzag order: entry `i` is the position in the block, row by row, of
/// the `i`-th coefficient read along the antidiagonals.
pub open spec fn zig_order() -> Seq<usize> {
    seq![
        0usize, 1, 8, 16, 9, 2, 3, 10, 17, 24, 32, 25, 18, 11, 4, 5, 12, 19, 26, 33, 40, 48, 41, 34,
        27, 20, 13, 6, 7, 14, 21, 28, 35, 42, 49, 56, 57, 50, 43, 36, 29, 22, 15, 23, 30, 37, 44, 51,
        58, 59, 52, 45, 38, 31, 39, 46, 53, 60, 61, 54, 47, 55, 62, 63,
    ]
}

/// A block read in zigzag order.
pub open spec fn zigzag_seq<T>(data: Seq<T>) -> Seq<T> {
    Seq::new(64, |i: int| data[zig_order()[i] as int])
}

/// The length up to and including the last entry among the first `n` that
/// is not flagged as zero.
pub open spec fn trimmed_len(zero: Seq<bool>, n: nat) -> nat
    decreases n,
{
    if n == 0 {
        0
    } else if !zero[n - 1] {
        n
    } else {
        trimmed_len(zero, (n - 1) as nat)
    }
}

/// The block in zigzag order without its trailing zeros; a block of zeros
/// keeps its first value.
pub open spec fn zigzag_trim<T>(data: Seq<T>, zero: Seq<bool>) -> Seq<T> {
    let n = trimmed_len(zigzag_seq(zero), 64);
    if n == 0 {
        seq![data[0]]
    } else {
        zigzag_seq(data).take(n as int)
    }
}

proof fn lemma_trimmed_len_bound(zero: Seq<bool>, n: nat)
    ensures
        trimmed_len(zero, n) <= n,
        forall|j: int| trimmed_len(zero, n) <= j < n ==> zero[j],
        trimmed_len(zero, n) > 0 ==> !zero[trimmed_len(zero, n) - 1],
    decreases n,
{
    if n > 0 && zero[n - 1] {
        lemma_trimmed_len_bound(zero, (n - 1) as nat);
    }
}

proof fn lemma_zig_order_bound()
    ensures
        forall|i: int| 0 <= i < 64 ==> #[trigger] zig_order()[i] < 64,
        zig_order().len() == 64,
{
    let z = zig_order();
    assert forall|i: int| 0 <= i < 64 implies #[trigger] z[i] < 64 by {
        assert(z[i] < 64);
    }
}

/// What zigzag trimming keeps is a prefix of the block in zigzag order, and
/// every entry after it is flagged as zero.
pub proof fn lemma_zigzag_trim<T>(data: Seq<T>, zero: Seq<bool>)
    ensures
        ({
            let kept = zigzag_trim(data, zero);
            &&& 1 <= kept.len() <= 64
            &&& forall|i: int| 0 <= i < kept.len() ==> kept[i] == zigzag_seq(data)[i]
            &&& forall|i: int| kept.len() <= i < 64 ==> zigzag_seq(zero)[i]
        }),
{
    let zf = zigzag_seq(zero);
    lemma_trimmed_len_bound(zf, 64);
    lemma_zig_order_bound();
    let n = trimmed_len(zf, 64);
    if n == 0 {
        assert(zig_order()[0] == 0);
    }
}

/// The values of the block in zigzag order, without the trailing values
/// flagged as zero; if all are, the first value alone.
fn zigzag_keep<T: Copy>(data: &[T; 64], zero: &[bool; 64]) -> (res: Vec<T>)
    ensures
        res@ == zigzag_trim(data@, zero@),
{
    let zig: [usize; 64] = [
        0,
        1,
        8,
        16,
        9,
        2,
        3,
        10,
        17,
        24,
        32,
        25,
        18,
        11,
        4,
        5,
        12,
        19,
        26,
        33,
        40,
        48,
        41,
        34,
        27,
        20,
        13,
        6,
        7,
        14,
        21,
        28,
        35,
        42,
        49,
        56,
        57,
        50,
        43,
        36,
        29,
        22,
        15,
        23,
        30,
        37,
        44,
        51,
        58,
        59,
        52,
        45,
        38,
        31,
        39,
        46,
        53,
        60,
        61,
        54,
        47,
        55,
        62,
        63,
    ];
    assert(zig@ =~= zig_order());
    proof {
        lemma_zig_order_bound();
    }
    let ghost zz = zigzag_seq(data@);
    let ghost zf = zigzag_seq(zero@);
    let mut res: Vec<T> = Vec::new();
    let mut temp: Vec<T> = Vec::new();
    let mut i: usize = 0;
    while i < 64
        invariant
            i <= 64,
            zig@ == zig_order(),
            forall|k: int| 0 <= k < 64 ==> #[trigger] zig_order()[k] < 64,
            zz == zigzag_seq(data@),
            zf == zigzag_seq(zero@),
            res@ == zz.take(trimmed_len(zf, i as nat) as int),
            res@ + temp@ == zz.take(i as int),
            trimmed_len(zf, i as nat) <= i,
        decreases 64 - i,
    {
        let k = zig[i];
        let val = data[k];
        assert(zz[i as int] == val);
        assert(zf[i as int] == zero[k as int]);
        proof {
            lemma_trimmed_len_bound(zf, i as nat);
        }
        if zero[k] {
            temp.push(val);
        } else if temp.len() == 0 {
            res.push(val);
        } else {
            temp.push(val);
            res.append(&mut temp);
        }
        i = i + 1;
        assert(zz.take(i as int) =~= zz.take(i - 1).push(val));
        assert(res@ =~= zz.take(trimmed_len(zf, i as nat) as int));
    }
    proof {
        lemma_trimmed_len_bound(zf, 64);
    }
    if res.len() == 0 {
        res.push(data[0]);
    }
    assert(res@ =~= zigzag_trim(data@, zero@));
    res
}

impl Bloc<i16> {
    /// Each coefficient divided by the matching entry of the quantization
    /// table, rounding toward zero.
    pub fn do_quant(&mut self, quant: &Bloc<u8>) -> (res: Bloc<i16>)
        requires
            forall|k: int| 0 <= k < 64 ==> #[trigger] quant.data@[k] != 0,
        ensures
            *final(self) == *old(self),
            forall|k: int|
                0 <= k < 64 ==> #[trigger] res.data@[k] as int == quotient(
                    old(self).data@[k] as int,
                    quant.data@[k] as int,
                ),
    {
        let mut res: Bloc<i16> = Bloc { data: [0; 64] };
        let mut count: usize = 0;
        while count < 64
            invariant
                count <= 64,
                forall|k: int| 0 <= k < 64 ==> #[trigger] quant.data@[k] != 0,
                forall|k: int|
                    0 <= k < count ==> #[trigger] res.data@[k] as int == quotient(
                        self.data@[k] as int,
                        quant.data@[k] as int,
                    ),
            decreases 64 - count,
        {
            let x = match i16_to_i16(self.data[count]) {
                Some(v) => v,
                None => 0,
            };
            let q = match u8_to_i16(quant.data[count]) {
                Some(v) => v,
                None => 1,
            };
            assert(q > 0);
            res.data[count] = x / q;
            count = count + 1;
        }
        res
    }

    /// The coefficients in zigzag order without the trailing zeros; a block
    /// of zeros gives a single zero.
    pub fn do_zigzag(&self) -> (res: Vec<i16>)
        ensures
            res@ == zigzag_trim(self.data@, Seq::new(64, |k: int| self.data@[k] == 0)),
    {
        let mut zero: [bool; 64] = [false; 64];
        let mut k: usize = 0;
        while k < 64
            invariant
                k <= 64,
                forall|j: int| 0 <= j < k ==> #[trigger] zero@[j] == (self.data@[j] == 0),
            decreases 64 - k,
        {
            zero[k] = match i16_to_i16(self.data[k]) {
                Some(v) => v == 0,
                None => false,
            };
            k = k + 1;
        }
        assert(zero@ =~= Seq::new(64, |k: int| self.data@[k] == 0));
        zigzag_keep(&self.data, &zero)
    }
}

impl Bloc<u8> {
    /// The samples in zigzag order without the trailing zeros; a block of
    /// zeros gives a single zero.
    pub fn do_zigzag(&self) -> (res: Vec<u8>)
        ensures
            res@ == zigzag_trim(self.data@, Seq::new(64, |k: int| self.data@[k] == 0)),
    {
        let mut zero: [bool; 64] = [false; 64];
        let mut k: usize = 0;
        while k < 64
            invariant
                k <= 64,
                forall|j: int| 0 <= j < k ==> #[trigger] zero@[j] == (self.data@[j] == 0),
            decreases 64 - k,
        {
            zero[k] = match u8_to_i16(self.data[k]) {
                Some(v) => v == 0,
                None => false,
            };
            k = k + 1;
        }
        assert(zero@ =~= Seq::new(64, |k: int| self.data@[k] == 0));
        zigzag_keep(&self.data, &zero)
    }
}


/// Position `p` of block `b` when the image is cut into 8x8 blocks, blocks
/// row by row and, within a block position, one block per component: the
/// sample of that pixel and component in `lines` (pixels row by row, the
/// components of a pixel together), or 0 beyond the edge of the image.
pub open spec fn block_sample(f: JpegFormat, lines: Seq<u8>, b: int, p: int) -> u8 {
    let comp = f.comp as int;
    let c = b % comp;
    let cell = b / comp;
    let x = (cell % f.bsizex as int) * 8 + p % 8;
    let y = (cell / f.bsizex as int) * 8 + p / 8;
    if x < f.sizex && y < f.sizey {
        lines[(y * f.sizex + x) * comp + c]
    } else {
        0
    }
}

/// The number of blocks of a frame.
pub open spec fn block_count(f: JpegFormat) -> int {
    f.bsizex * f.bsizey * f.comp
}

/// The frame's block grid covers its pixels, its block count fits in 16
/// bits, and there is a sample for every pixel and component.
pub open spec fn grid_fits(f: JpegFormat, lines: Seq<u8>) -> bool {
    &&& f.bsizex * f.bsizey <= u16::MAX
    &&& block_count(f) <= u16::MAX
    &&& f.sizex > 0 && f.sizey > 0 && f.comp > 0 ==> {
        &&& (f.sizex - 1) / 8 < f.bsizex
        &&& (f.sizey - 1) / 8 < f.bsizey
        &&& lines.len() >= f.sizex * f.sizey * f.comp
    }
}

/// The pixel and component of position `p` in block `b`, row `y`, column
/// `x`, component `c`, lies inside the image and comes before it when
/// pixels are read row by row and the components of a pixel in order.
pub open spec fn sample_before(f: JpegFormat, b: int, p: int, y: int, x: int, c: int) -> bool {
    let comp = f.comp as int;
    let dc = b % comp;
    let cell = b / comp;
    let dx = (cell % f.bsizex as int) * 8 + p % 8;
    let dy = (cell / f.bsizex as int) * 8 + p / 8;
    dx < f.sizex && (dy < y || (dy == y && (dx < x || (dx == x && dc < c))))
}

proof fn lemma_decoded_c(b: int, comp: int)
    requires
        0 <= b,
        comp > 0,
    ensures
        0 <= b % comp < comp,
{
    vstd::arithmetic::div_mod::lemma_mod_bound(b, comp);
}

proof fn lemma_index_bounds(f: JpegFormat, lines: Seq<u8>, x: int, y: int, c: int)
    requires
        grid_fits(f, lines),
        f.sizex > 0 && f.sizey > 0 && f.comp > 0,
        0 <= x < f.sizex,
        0 <= y < f.sizey,
        0 <= c < f.comp,
    ensures
        (x / 8 + (y / 8) * f.bsizex) * f.comp + c < block_count(f),
        (y / 8) * f.bsizex <= block_count(f),
        x / 8 + (y / 8) * f.bsizex <= block_count(f),
        (x / 8 + (y / 8) * f.bsizex) * f.comp <= block_count(f),
        (y * f.sizex + x) * f.comp + c < lines.len(),
        x / 8 < f.bsizex,
{
    let bsx = f.bsizex as int;
    let bsy = f.bsizey as int;
    let comp = f.comp as int;
    let qx = x / 8;
    let qy = y / 8;
    vstd::arithmetic::div_mod::lemma_div_is_ordered(x, f.sizex - 1, 8);
    vstd::arithmetic::div_mod::lemma_div_is_ordered(y, f.sizey - 1, 8);
    vstd::arithmetic::div_mod::lemma_div_pos_is_pos(x, 8);
    vstd::arithmetic::div_mod::lemma_div_pos_is_pos(y, 8);
    assert(0 <= qx < bsx);
    assert(0 <= qy < bsy);
    assert((qx + qy * bsx) * comp + c < bsx * bsy * comp) by (nonlinear_arith)
        requires
            0 <= qx < bsx,
            0 <= qy < bsy,
            0 <= c < comp,
    ;
    assert((qx + qy * bsx) * comp + c >= (qx + qy * bsx) * comp >= qx + qy * bsx >= qy * bsx)
        by (nonlinear_arith)
        requires
            0 <= qx,
            0 <= qy,
            0 <= bsx,
            0 <= c,
            comp >= 1,
    ;
    assert((y * f.sizex + x) * comp + c < f.sizex * f.sizey * comp) by (nonlinear_arith)
        requires
            0 <= x < f.sizex,
            0 <= y < f.sizey,
            0 <= c < comp,
    ;
}

proof fn lemma_block_position(x: int, y: int, c: int, bsx: int, comp: int, nb: int)
    requires
        0 <= x,
        0 <= y,
        0 <= c < comp,
        x / 8 < bsx,
        nb == ((x / 8 + (y / 8) * bsx) * comp + c),
    ensures
        nb % comp == c,
        nb / comp == x / 8 + (y / 8) * bsx,
        (nb / comp) % bsx == x / 8,
        (nb / comp) / bsx == y / 8,
        (x % 8 + (y % 8) * 8) % 8 == x % 8,
        (x % 8 + (y % 8) * 8) / 8 == y % 8,
        ((nb / comp) % bsx) * 8 + (x % 8 + (y % 8) * 8) % 8 == x,
        ((nb / comp) / bsx) * 8 + (x % 8 + (y % 8) * 8) / 8 == y,
{
    let cell = x / 8 + (y / 8) * bsx;
    vstd::arithmetic::div_mod::lemma_fundamental_div_mod_converse(nb, comp, cell, c);
    assert(cell == (y / 8) * bsx + x / 8);
    vstd::arithmetic::div_mod::lemma_fundamental_div_mod_converse(cell, bsx, y / 8, x / 8);
    let p = x % 8 + (y % 8) * 8;
    assert(p == (y % 8) * 8 + x % 8);
    vstd::arithmetic::div_mod::lemma_fundamental_div_mod_converse(p, 8, y % 8, x % 8);
}

proof fn lemma_block_decode(b: int, p: int, bsx: int, comp: int)
    requires
        0 <= b,
        0 <= p < 64,
        bsx > 0,
        comp > 0,
    ensures
        ({
            let c = b % comp;
            let cell = b / comp;
            let x = (cell % bsx) * 8 + p % 8;
            let y = (cell / bsx) * 8 + p / 8;
            &&& 0 <= x
            &&& 0 <= y
            &&& 0 <= c < comp
            &&& x / 8 < bsx
            &&& b == (x / 8 + (y / 8) * bsx) * comp + c
            &&& p == x % 8 + (y % 8) * 8
        }),
{
    let c = b % comp;
    let cell = b / comp;
    let bx = cell % bsx;
    let by = cell / bsx;
    let x = bx * 8 + p % 8;
    let y = by * 8 + p / 8;
    vstd::arithmetic::div_mod::lemma_fundamental_div_mod(b, comp);
    vstd::arithmetic::div_mod::lemma_fundamental_div_mod(cell, bsx);
    vstd::arithmetic::div_mod::lemma_fundamental_div_mod(p, 8);
    vstd::arithmetic::div_mod::lemma_mod_bound(b, comp);
    vstd::arithmetic::div_mod::lemma_mod_bound(cell, bsx);
    vstd::arithmetic::div_mod::lemma_div_pos_is_pos(b, comp);
    vstd::arithmetic::div_mod::lemma_div_pos_is_pos(cell, bsx);
    vstd::arithmetic::div_mod::lemma_fundamental_div_mod_converse(x, 8, bx, p % 8);
    vstd::arithmetic::div_mod::lemma_fundamental_div_mod_converse(y, 8, by, p / 8);
    assert(cell == bsx * by + bx);
    assert(b == comp * cell + c);
    assert(b == (bx + by * bsx) * comp + c) by (nonlinear_arith)
        requires
            cell == bsx * by + bx,
            b == comp * cell + c,
    ;
}

/// Whether [`parse_bloc_line`] can cut these samples into blocks.
pub fn check_grid(file_format: &JpegFormat, lines: &Vec<u8>) -> (res: bool)
    ensures
        res == grid_fits(*file_format, lines@),
{
    let bx = file_format.bsizex as u64;
    let by = file_format.bsizey as u64;
    let comp = file_format.comp as u64;
    assert(bx * by <= 65535 * 65535) by (nonlinear_arith)
        requires
            bx <= 65535,
            by <= 65535,
    ;
    let cells: u64 = bx * by;
    if cells > 65535 {
        return false;
    }
    assert(cells * comp <= 65535 * 255) by (nonlinear_arith)
        requires
            cells <= 65535,
            comp <= 255,
    ;
    if cells * comp > 65535 {
        return false;
    }
    if file_format.sizex > 0 && file_format.sizey > 0 && file_format.comp > 0 {
        if (file_format.sizex - 1) / 8 >= file_format.bsizex {
            return false;
        }
        if (file_format.sizey - 1) / 8 >= file_format.bsizey {
            return false;
        }
        let sx = file_format.sizex as u64;
        let sy = file_format.sizey as u64;
        assert(sx * sy <= 65535 * 65535) by (nonlinear_arith)
            requires
                sx <= 65535,
                sy <= 65535,
        ;
        assert(sx * sy * comp <= 65535 * 65535 * 255) by (nonlinear_arith)
            requires
                sx * sy <= 65535 * 65535,
                comp <= 255,
        ;
        let need: u64 = sx * sy * comp;
        if (lines.len() as u64) < need {
            return false;
        }
    }
    true
}

/// Cuts the samples of an image into 8x8 blocks: blocks row by row, and for
/// each block position one block per component; samples beyond the edge of
/// the image are 0.
pub fn parse_bloc_line(lines: Vec<u8>, file_format: &JpegFormat) -> (res: Result<
    Vec<Bloc<u8>>,
    JpegError,
>)
    requires
        grid_fits(*file_format, lines@),
    ensures
        res matches Ok(blocs) && blocs@.len() == block_count(*file_format) && forall|b: int, p: int|
            0 <= b < blocs@.len() && 0 <= p < 64 ==> (#[trigger] blocs@[b].data@[p])
                == block_sample(*file_format, lines@, b, p),
{
    let ghost f = *file_format;
    let bsx = file_format.bsizex;
    let comp = file_format.comp as u16;
    let sizex = file_format.sizex;
    let sizey = file_format.sizey;
    let n: u16 = file_format.bsizex * file_format.bsizey * (file_format.comp as u16);
    let mut blocs: Vec<Bloc<u8>> = Vec::new();
    let mut k: u16 = 0;
    while k < n
        invariant
            k <= n,
            blocs@.len() == k,
            forall|b: int, p: int|
                0 <= b < k && 0 <= p < 64 ==> #[trigger] blocs@[b].data@[p] == 0u8,
        decreases n - k,
    {
        blocs.push(Bloc { data: [0; 64] });
        k = k + 1;
    }
    if sizex == 0 || sizey == 0 || comp == 0 {
        proof {
            assert forall|b: int, p: int|
                0 <= b < blocs@.len() && 0 <= p < 64 implies (#[trigger] blocs@[b].data@[p])
                == block_sample(f, lines@, b, p) by {
                if comp > 0 && bsx > 0 {
                    lemma_block_decode(b, p, bsx as int, comp as int);
                } else {
                    assert(n == 0) by (nonlinear_arith)
                        requires
                            n == bsx * f.bsizey * comp,
                            comp == 0 || bsx == 0,
                    ;
                }
            }
        }
        return Ok(blocs);
    }
    let mut count: usize = 0;
    let mut y: u16 = 0;
    while y < sizey
        invariant
            f == *file_format,
            bsx == f.bsizex,
            comp == f.comp,
            sizex == f.sizex,
            sizey == f.sizey,
            sizex > 0 && sizey > 0 && comp > 0,
            grid_fits(f, lines@),
            n == block_count(f),
            blocs@.len() == n,
            y <= sizey,
            count == (y * sizex) * comp,
            forall|b: int, p: int|
                0 <= b < n && 0 <= p < 64 ==> #[trigger] blocs@[b].data@[p] == (if sample_before(f, b, p, y as int, 0, 0) {
                    block_sample(f, lines@, b, p)
                } else {
                    0u8
                }),
        decreases sizey - y,
    {
        let mut x: u16 = 0;
        while x < sizex
            invariant
                f == *file_format,
                bsx == f.bsizex,
                comp == f.comp,
                sizex == f.sizex,
                sizey == f.sizey,
                sizex > 0 && sizey > 0 && comp > 0,
                grid_fits(f, lines@),
                n == block_count(f),
                blocs@.len() == n,
                y < sizey,
                x <= sizex,
                count == (y * sizex + x) * comp,
                forall|b: int, p: int|
                    0 <= b < n && 0 <= p < 64 ==> #[trigger] blocs@[b].data@[p] == (if sample_before(f, b, p, y as int, x as int, 0) {
                        block_sample(f, lines@, b, p)
                    } else {
                        0u8
                    }),
            decreases sizex - x,
        {
            let mut c: u16 = 0;
            while c < comp
                invariant
                    f == *file_format,
                    bsx == f.bsizex,
                    comp == f.comp,
                    sizex == f.sizex,
                    sizey == f.sizey,
                    sizex > 0 && sizey > 0 && comp > 0,
                    grid_fits(f, lines@),
                    n == block_count(f),
                    blocs@.len() == n,
                    y < sizey,
                    x < sizex,
                    c <= comp,
                    count == (y * sizex + x) * comp + c,
                    forall|b: int, p: int|
                        0 <= b < n && 0 <= p < 64 ==> #[trigger] blocs@[b].data@[p] == (if sample_before(f, b, p, y as int, x as int, c as int) {
                            block_sample(f, lines@, b, p)
                        } else {
                            0u8
                        }),
                decreases comp - c,
            {
                proof {
                    lemma_index_bounds(f, lines@, x as int, y as int, c as int);
                }
                let idx: u16 = (x / 8 + (y / 8) * bsx) * comp + c;
                let pos: u16 = x % 8 + (y % 8) * 8;
                let ghost before = blocs@;
                proof {
                    lemma_block_position(x as int, y as int, c as int, bsx as int, comp as int, idx as int);
                }
                let total = lines.len();
                assert(count < total);
                let v = lines[count];
                blocs[idx as usize].data[pos as usize] = v;
                proof {
                    assert forall|b: int, p: int|
                        0 <= b < n && 0 <= p < 64 implies #[trigger] blocs@[b].data@[p] == (if sample_before(f, b, p, y as int, x as int, c + 1) {
                            block_sample(f, lines@, b, p)
                        } else {
                            0u8
                        }) by {
                        lemma_block_decode(b, p, bsx as int, comp as int);
                        if b == idx && p == pos {
                            assert(blocs@[b].data@[p] == v);
                        } else {
                            assert(blocs@[b].data@[p] == before[b].data@[p]);
                        }
                    }
                }
                count = count + 1;
                c = c + 1;
            }
            x = x + 1;
            proof {
                assert forall|b: int, p: int|
                    0 <= b < n && 0 <= p < 64 implies sample_before(f, b, p, y as int, (x - 1) as int, comp as int)
                        == sample_before(f, b, p, y as int, x as int, 0) by {
                    lemma_decoded_c(b, comp as int);
                }
                assert(count == (y * sizex + x) * comp) by (nonlinear_arith)
                    requires
                        count == (y * sizex + (x - 1)) * comp + comp,
                ;
            }
        }
        y = y + 1;
        proof {
            assert(count == (y * sizex) * comp) by (nonlinear_arith)
                requires
                    count == ((y - 1) * sizex + sizex) * comp,
            ;
        }
    }
    Ok(blocs)
}

/// Every space-separated piece of the line is a number from 0 to 255.
pub open spec fn line_ok(line: Seq<u8>) -> bool {
    pieces_ok(split_spaces(line))
}

/// Every piece is a number from 0 to 255.
pub open spec fn pieces_ok(pieces: Seq<Seq<u8>>) -> bool {
    forall|k: int| 0 <= k < pieces.len() ==> (decimal_upto(#[trigger] pieces[k], 255) is Some)
}

pub(crate) proof fn lemma_pieces_ok_push(ps: Seq<Seq<u8>>, t: Seq<u8>)
    ensures
        pieces_ok(ps.push(t)) == (pieces_ok(ps) && decimal_upto(t, 255) is Some),
{
    if pieces_ok(ps) && decimal_upto(t, 255) is Some {
        assert forall|k: int| 0 <= k < ps.push(t).len() implies (decimal_upto(
            #[trigger] ps.push(t)[k],
            255,
        ) is Some) by {
            if k < ps.len() {
                assert(ps.push(t)[k] == ps[k]);
            }
        }
    }
    if pieces_ok(ps.push(t)) {
        assert(ps.push(t)[ps.len() as int] == t);
        assert forall|k: int| 0 <= k < ps.len() implies (decimal_upto(#[trigger] ps[k], 255) is Some) by {
            assert(ps.push(t)[k] == ps[k]);
        }
    }
}

/// The numbers of a line whose pieces are all numbers from 0 to 255.
pub open spec fn line_values(pieces: Seq<Seq<u8>>) -> Seq<u8> {
    pieces.map_values(|t: Seq<u8>| decimal_upto(t, 255).unwrap() as u8)
}

/// The numbers of line `l` written in turn to row `l` of the table, the
/// `k`-th number to column `k % 8`.
pub open spec fn store_line(data: Seq<u8>, l: int, vals: Seq<u8>) -> Seq<u8>
    decreases vals.len(),
{
    if vals.len() == 0 {
        data
    } else {
        store_line(data, l, vals.drop_last()).update(8 * l + (vals.len() - 1) % 8, vals.last())
    }
}

/// The quantization table after the first `n` lines.
pub open spec fn quant_data(lines: Seq<Vec<u8>>, n: nat) -> Seq<u8>
    decreases n,
{
    if n == 0 {
        Seq::new(64, |i: int| 0u8)
    } else {
        store_line(
            quant_data(lines, (n - 1) as nat),
            n - 1,
            line_values(split_spaces(lines[n - 1]@)),
        )
    }
}

/// The text of a quantization table is well formed: eight lines of numbers
/// from 0 to 255 separated by single spaces.
pub open spec fn quant_ok(lines: Seq<Vec<u8>>) -> bool {
    lines.len() >= 8 && forall|l: int| 0 <= l < 8 ==> line_ok(#[trigger] lines[l]@)
}

/// The entry that column `c` of a row takes from the pieces of its line:
/// the number of the last piece whose place in the line is `c` modulo 8,
/// or 0 when the line has no piece at place `c`.
pub open spec fn row_entry(pieces: Seq<Seq<u8>>, c: int) -> u8 {
    let n = pieces.len() as int;
    if c < n {
        decimal_upto(pieces[c + 8 * ((n - 1 - c) / 8)], 255).unwrap() as u8
    } else {
        0
    }
}

/// Storing the numbers of line `l` touches row `l` only, and leaves in
/// each of its columns the last number written there.
proof fn lemma_store_line_entry(data: Seq<u8>, l: int, vals: Seq<u8>, p: int)
    requires
        data.len() == 64,
        0 <= l < 8,
        0 <= p < 64,
    ensures
        store_line(data, l, vals)[p] == if p / 8 == l && p % 8 < vals.len() {
            vals[p % 8 + 8 * ((vals.len() - 1 - p % 8) / 8)]
        } else {
            data[p]
        },
    decreases vals.len(),
{
    if vals.len() > 0 {
        let m = vals.len() as int;
        let prev = vals.drop_last();
        lemma_store_line_entry(data, l, prev, p);
        lemma_store_line_len(data, l, prev);
        let j = (m - 1) % 8;
        if p == 8 * l + j {
            assert(p / 8 == l && p % 8 == j);
            assert((m - 1 - j) / 8 * 8 == m - 1 - j);
        } else if p / 8 == l {
            let c = p % 8;
            assert(c != j);
            if c < m - 1 {
                assert((m - 2 - c) / 8 == (m - 1 - c) / 8);
                assert(prev[c + 8 * ((m - 2 - c) / 8)] == vals[c + 8 * ((m - 1 - c) / 8)]);
            } else {
                assert(c >= m);
            }
        }
    }
}

/// Entry `p` of the quantization table after the first `n` lines: row
/// `p / 8` takes its numbers from line `p / 8`, and rows not read yet are 0.
pub proof fn lemma_quant_data_entry(lines: Seq<Vec<u8>>, n: nat, p: int)
    requires
        n <= 8,
        0 <= p < 64,
    ensures
        quant_data(lines, n)[p] == if p / 8 < n {
            row_entry(split_spaces(lines[p / 8]@), p % 8)
        } else {
            0
        },
    decreases n,
{
    if n > 0 {
        let l = n - 1;
        let ps = split_spaces(lines[l]@);
        let vals = line_values(ps);
        lemma_quant_data_len(lines, l as nat);
        lemma_quant_data_entry(lines, l as nat, p);
        lemma_store_line_entry(quant_data(lines, l as nat), l, vals, p);
        if p / 8 == l && p % 8 < vals.len() {
            let k = p % 8 + 8 * ((vals.len() - 1 - p % 8) / 8);
            assert(0 <= k < vals.len());
            assert(vals[k] == decimal_upto(ps[k], 255).unwrap() as u8);
        }
    }
}

proof fn lemma_store_line_len(data: Seq<u8>, l: int, vals: Seq<u8>)
    requires
        data.len() == 64,
        0 <= l < 8,
    ensures
        store_line(data, l, vals).len() == 64,
    decreases vals.len(),
{
    if vals.len() > 0 {
        lemma_store_line_len(data, l, vals.drop_last());
    }
}

proof fn lemma_quant_data_len(lines: Seq<Vec<u8>>, n: nat)
    requires
        n <= 8,
    ensures
        quant_data(lines, n).len() == 64,
    decreases n,
{
    if n > 0 {
        lemma_quant_data_len(lines, (n - 1) as nat);
        lemma_store_line_len(
            quant_data(lines, (n - 1) as nat),
            n - 1,
            line_values(split_spaces(lines[n - 1]@)),
        );
    }
}

/// The state of reading one line after its first `i` bytes: the finished
/// pieces and the piece being read.
proof fn lemma_split_step(line: Seq<u8>, i: int)
    requires
        0 <= i < line.len(),
    ensures
        split_spaces(line.take(i + 1)) == (if line[i] == 0x20 {
            split_spaces(line.take(i)).push(Seq::empty())
        } else {
            let prev = split_spaces(line.take(i));
            prev.update(prev.len() - 1, prev.last().push(line[i]))
        }),
{
    assert(line.take(i + 1).drop_last() == line.take(i));
}

/// Reads the piece `line[start..end]`: a number from 0 to 255 goes to
/// column `count` of row `l`, anything else is an error.
fn store_piece(
    quant: &mut Bloc<u8>,
    l: usize,
    count: &mut usize,
    errors: &mut bool,
    line: &Vec<u8>,
    start: usize,
    end: usize,
)
    requires
        l < 8,
        *old(count) < 8,
        start <= end <= line@.len(),
    ensures
        *final(errors) == (*old(errors) || decimal_upto(line@.subrange(start as int, end as int), 255) is None),
        *final(count) < 8,
        !*final(errors) ==> *final(count) == (*old(count) + 1) % 8 && final(quant).data@ == old(quant).data@.update(
            8 * l + *old(count),
            decimal_upto(line@.subrange(start as int, end as int), 255).unwrap() as u8,
        ),
{
    match parse_decimal(line.as_slice(), start, end, 255) {
        Some(x) => {
            quant.data[8 * l + *count] = x as u8;
            *count = (*count + 1) % 8;
        },
        None => {
            *errors = true;
        },
    }
}

/// The quantization table written as text, one line per row: each line
/// holds numbers from 0 to 255 separated by single spaces, the `k`-th
/// number of a line going to column `k % 8`. Fails when there are fewer
/// than eight lines or a piece of one of them is not such a number.
#[verifier::rlimit(40)]
#[verifier::spinoff_prover]
pub fn parse_quant(lines: &Vec<Vec<u8>>) -> (res: Result<Bloc<u8>, JpegError>)
    ensures
        match res {
            Ok(q) => quant_ok(lines@) && q.data@ == quant_data(lines@, 8) && forall|p: int|
                0 <= p < 64 ==> #[trigger] q.data@[p] == row_entry(split_spaces(lines@[p / 8]@), p % 8),
            Err(e) => !quant_ok(lines@) && e == JpegError::ReadError,
        },
{
    let mut quant: Bloc<u8> = Bloc { data: [0; 64] };
    let mut l: usize = 0;
    assert(quant.data@ =~= quant_data(lines@, 0));
    while l < 8
        invariant
            l <= 8,
            quant.data@ == quant_data(lines@, l as nat),
            l <= lines@.len(),
            forall|j: int| 0 <= j < l ==> line_ok(#[trigger] lines@[j]@),
        decreases 8 - l,
    {
        if l >= lines.len() {
            return Err(JpegError::ReadError);
        }
        let line = &lines[l];
        let ghost base = quant.data@;
        proof {
            lemma_quant_data_len(lines@, l as nat);
            assert(line@.take(0) == Seq::<u8>::empty());
        }
        let mut count: usize = 0;
        let mut errors = false;
        let mut start: usize = 0;
        let mut i: usize = 0;
        while i < line.len()
            invariant
                l < 8,
                l < lines@.len(),
                line == lines@[l as int],
                base.len() == 64,
                start <= i <= line@.len(),
                count < 8,
                ({
                    let pieces = split_spaces(line@.take(i as int));
                    &&& pieces.len() >= 1
                    &&& pieces.last() == line@.subrange(start as int, i as int)
                    &&& errors == !pieces_ok(pieces.drop_last())
                    &&& !errors ==> count == (pieces.len() - 1) % 8 && quant.data@ == store_line(
                        base,
                        l as int,
                        line_values(pieces.drop_last()),
                    )
                }),
            decreases line@.len() - i,
        {
            let ghost pieces = split_spaces(line@.take(i as int));
            proof {
                lemma_split_step(line@, i as int);
            }
            if line[i] == 0x20 {
                let ghost tok = line@.subrange(start as int, i as int);
                let ghost old_count = count;
                proof {
                    assert(pieces.drop_last().push(tok) == pieces);
                    lemma_pieces_ok_push(pieces.drop_last(), tok);
                    lemma_store_line_len(base, l as int, line_values(pieces.drop_last()));
                }
                store_piece(&mut quant, l, &mut count, &mut errors, line, start, i);
                proof {
                    let next = split_spaces(line@.take(i + 1));
                    assert(next == pieces.push(Seq::empty()));
                    assert(next.drop_last() == pieces);
                    assert(line@.subrange(i + 1, i + 1) == Seq::<u8>::empty());
                    if !errors {
                        let vals = line_values(pieces);
                        assert(vals.drop_last() =~= line_values(pieces.drop_last()));
                        assert(vals.len() == pieces.len());
                        assert(old_count == (vals.len() - 1) % 8);
                    }
                }
                start = i + 1;
            } else {
                proof {
                    let next = split_spaces(line@.take(i + 1));
                    assert(next.drop_last() =~= pieces.drop_last());
                    assert(next.last() =~= line@.subrange(start as int, i + 1));
                }
            }
            i = i + 1;
        }
        proof {
            assert(line@.take(i as int) == line@);
        }
        let ghost pieces = split_spaces(line@);
        let ghost tok = line@.subrange(start as int, i as int);
        let ghost old_count = count;
        proof {
            assert(pieces.drop_last().push(tok) == pieces);
            lemma_pieces_ok_push(pieces.drop_last(), tok);
            lemma_store_line_len(base, l as int, line_values(pieces.drop_last()));
        }
        store_piece(&mut quant, l, &mut count, &mut errors, line, start, i);
        if errors {
            return Err(JpegError::ReadError);
        }
        proof {
            let vals = line_values(pieces);
            assert(vals.drop_last() =~= line_values(pieces.drop_last()));
            assert(old_count == (vals.len() - 1) % 8);
            assert(quant.data@ == store_line(base, l as int, vals));
        }
        l = l + 1;
    }
    proof {
        assert forall|p: int| 0 <= p < 64 implies #[trigger] quant.data@[p] == row_entry(
            split_spaces(lines@[p / 8]@),
            p % 8,
        ) by {
            lemma_quant_data_entry(lines@, 8, p);
        }
    }
    Ok(quant)
}

} // verus!
