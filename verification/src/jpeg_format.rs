use vstd::prelude::*;

use crate::bitstream::{pack_bytes, BitStream};

verus! {

/// What a baseline JPEG file is made of: the image size, the Huffman and
/// quantization tables and the entropy-coded data.
#[derive(Clone)]
pub struct JpegFormat {
    pub sizex: u16,
    pub sizey: u16,
    pub huff_deep_ac: Vec<[u8; 16]>,
    pub huff_symbol_ac: Vec<[Vec<u8>; 16]>,
    pub huff_deep_dc: Vec<[u8; 16]>,
    pub huff_symbol_dc: Vec<[Vec<u8>; 16]>,
    pub data: BitStream,
    pub comp: u8,
    pub x_sampling: u8,
    pub y_sampling: u8,
    pub quant_table: Vec<Vec<u8>>,
    pub bsizex: u16,
    pub bsizey: u16,
}

/// A marker: `0xFF` and its code.
pub open spec fn marker(mark: u8) -> Seq<u8> {
    seq![0xFFu8, mark]
}

/// A 16-bit size, high byte first.
pub open spec fn size_bytes(size: u16) -> Seq<u8> {
    seq![(size / 256) as u8, (size % 256) as u8]
}

/// The APP0 (JFIF) segment.
pub open spec fn jfif_bytes() -> Seq<u8> {
    marker(0xE0) + size_bytes(16) + seq![
        0x4Au8,
        0x46u8,
        0x49u8,
        0x46u8,
        0x00u8,
        0x01u8,
        0x01u8,
        0x01u8,
        0x00u8,
        0x48u8,
        0x00u8,
        0x48u8,
        0x00u8,
        0x00u8,
    ]
}

/// The sampling byte of a component: horizontal factor in the high half,
/// vertical factor in the low half.
pub open spec fn sampling_byte(x_sampling: u8, y_sampling: u8) -> int {
    (x_sampling * 16) % 256 + y_sampling
}

/// The quantization table of component `i` when `tables` tables are
/// written: the component's own table if there is one, else the last one
/// (chrominance components share a table, and with one table all share it).
pub open spec fn table_id(i: nat, tables: nat) -> u8 {
    if tables == 0 || i < tables {
        (if tables == 0 {
            0
        } else {
            i
        }) as u8
    } else {
        (tables - 1) as u8
    }
}

/// The component entries of the SOF0 segment, for the first `n` components.
pub open spec fn sof0_components(n: nat, x_sampling: u8, y_sampling: u8, tables: nat) -> Seq<u8>
    decreases n,
{
    if n == 0 {
        Seq::empty()
    } else {
        let i = (n - 1) as nat;
        sof0_components(i, x_sampling, y_sampling, tables) + seq![
            i as u8,
            sampling_byte(x_sampling, y_sampling) as u8,
            table_id(i, tables),
        ]
    }
}

/// The SOF0 (baseline frame) segment.
pub open spec fn sof0_bytes(f: JpegFormat) -> Seq<u8> {
    marker(0xC0) + size_bytes((8 + 3 * f.comp) as u16) + seq![8u8] + size_bytes(f.sizey)
        + size_bytes(f.sizex) + seq![f.comp] + sof0_components(
        f.comp as nat,
        f.x_sampling,
        f.y_sampling,
        f.quant_table@.len(),
    )
}

/// The DQT segments of the first `n` quantization tables.
pub open spec fn dqt_segments(tables: Seq<Vec<u8>>, n: nat) -> Seq<u8>
    decreases n,
{
    if n == 0 {
        Seq::empty()
    } else {
        let i = (n - 1) as nat;
        dqt_segments(tables, i) + marker(0xDB) + size_bytes(67) + seq![(i % 256) as u8]
            + tables[i as int]@
    }
}

/// The number of symbols in the first `n` code-length classes.
pub open spec fn symbol_count(symbols: Seq<Vec<u8>>, n: nat) -> nat
    decreases n,
{
    if n == 0 {
        0
    } else {
        symbol_count(symbols, (n - 1) as nat) + symbols[n - 1]@.len()
    }
}

/// The symbols of the first `n` code-length classes, one class after the other.
pub open spec fn symbol_bytes(symbols: Seq<Vec<u8>>, n: nat) -> Seq<u8>
    decreases n,
{
    if n == 0 {
        Seq::empty()
    } else {
        symbol_bytes(symbols, (n - 1) as nat) + symbols[n - 1]@
    }
}

/// One DHT segment: class and identifier byte, the 16 code counts and the symbols.
pub open spec fn dht_segment(id: u8, counts: [u8; 16], symbols: [Vec<u8>; 16]) -> Seq<u8> {
    marker(0xC4) + size_bytes((19 + (symbol_count(symbols@, 16) % 65536)) as u16) + seq![id]
        + counts@ + symbol_bytes(symbols@, 16)
}

/// The DHT segments of the first `n` DC tables.
pub open spec fn dht_dc_segments(f: JpegFormat, n: nat) -> Seq<u8>
    decreases n,
{
    if n == 0 {
        Seq::empty()
    } else {
        let i = (n - 1) as nat;
        dht_dc_segments(f, i) + dht_segment(
            (i % 256) as u8,
            f.huff_deep_dc@[i as int],
            f.huff_symbol_dc@[i as int],
        )
    }
}

/// The DHT segments of the first `n` AC tables.
pub open spec fn dht_ac_segments(f: JpegFormat, n: nat) -> Seq<u8>
    decreases n,
{
    if n == 0 {
        Seq::empty()
    } else {
        let i = (n - 1) as nat;
        dht_ac_segments(f, i) + dht_segment(
            (16 + i % 256) as u8,
            f.huff_deep_ac@[i as int],
            f.huff_symbol_ac@[i as int],
        )
    }
}

/// All DHT segments: the DC tables, then the AC tables.
pub open spec fn dht_bytes(f: JpegFormat) -> Seq<u8> {
    dht_dc_segments(f, f.huff_deep_dc@.len()) + dht_ac_segments(f, f.huff_deep_ac@.len())
}

/// The component entries of the SOS segment, for the first `n` components.
pub open spec fn sos_components(n: nat) -> Seq<u8>
    decreases n,
{
    if n == 0 {
        Seq::empty()
    } else {
        let i = (n - 1) as nat;
        sos_components(i) + seq![i as u8, ((i * 16) % 256 + i) as u8]
    }
}

/// The SOS segment followed by the entropy-coded data, with byte stuffing.
pub open spec fn sos_bytes(f: JpegFormat) -> Seq<u8> {
    marker(0xDA) + size_bytes((6 + 2 * f.comp) as u16) + seq![f.comp] + sos_components(
        f.comp as nat,
    ) + seq![0x00u8, 0x3Fu8, 0x00u8] + pack_bytes(f.data@, true)
}

/// The whole JPEG file.
pub open spec fn jpeg_bytes(f: JpegFormat) -> Seq<u8> {
    marker(0xD8) + jfif_bytes() + sof0_bytes(f) + dqt_segments(
        f.quant_table@,
        f.quant_table@.len(),
    ) + dht_bytes(f) + sos_bytes(f) + marker(0xD9)
}

/// The DHT segments can be laid out without overflow: each table's symbol
/// count fits and its size field does not overflow, and the AC identifiers
/// stay below 256.
pub open spec fn dht_fits(f: JpegFormat) -> bool {
    &&& f.huff_symbol_dc@.len() >= f.huff_deep_dc@.len()
    &&& f.huff_symbol_ac@.len() >= f.huff_deep_ac@.len()
    &&& f.huff_deep_ac@.len() <= 240
    &&& forall|i: int|
        0 <= i < f.huff_deep_dc@.len() ==> #[trigger] symbol_table_fits(f.huff_symbol_dc@[i])
    &&& forall|i: int|
        0 <= i < f.huff_deep_ac@.len() ==> #[trigger] symbol_table_fits(f.huff_symbol_ac@[i])
}

/// The symbol count of a table fits in a `usize` and, cut to 16 bits, leaves
/// room for the 19 bytes of the segment header.
pub open spec fn symbol_table_fits(symbols: [Vec<u8>; 16]) -> bool {
    &&& symbol_count(symbols@, 16) <= usize::MAX
    &&& symbol_count(symbols@, 16) % 65536 + 19 <= u16::MAX
}

/// The layout of `f` can be written without overflow.
pub open spec fn layout_fits(f: JpegFormat) -> bool {
    &&& f.comp <= 31
    &&& f.comp > 0 ==> sampling_byte(f.x_sampling, f.y_sampling) <= 255
    &&& dht_fits(f)
}

/// Appends a marker.
pub fn marking(stream: &mut Vec<u8>, mark: u8)
    ensures
        final(stream)@ == old(stream)@ + marker(mark),
{
    stream.push(0xFF);
    stream.push(mark);
    assert(stream@ =~= old(stream)@ + marker(mark));
}

/// Appends a 16-bit size, high byte first.
pub fn mark_size(stream: &mut Vec<u8>, size: u16)
    ensures
        final(stream)@ == old(stream)@ + size_bytes(size),
{
    stream.push((size / 256) as u8);
    stream.push((size % 256) as u8);
    assert(stream@ =~= old(stream)@ + size_bytes(size));
}

/// Appends all the bytes of `bytes`.
fn push_all(stream: &mut Vec<u8>, bytes: &Vec<u8>)
    ensures
        final(stream)@ == old(stream)@ + bytes@,
{
    let mut i: usize = 0;
    while i < bytes.len()
        invariant
            i <= bytes@.len(),
            stream@ == old(stream)@ + bytes@.take(i as int),
        decreases bytes@.len() - i,
    {
        stream.push(bytes[i]);
        i = i + 1;
        assert(stream@ =~= old(stream)@ + bytes@.take(i as int));
    }
    assert(bytes@.take(i as int) =~= bytes@);
}

/// Appends the 16 bytes of an array.
fn push_array(stream: &mut Vec<u8>, bytes: &[u8; 16])
    ensures
        final(stream)@ == old(stream)@ + bytes@,
{
    let mut i: usize = 0;
    while i < 16
        invariant
            i <= 16,
            stream@ == old(stream)@ + bytes@.take(i as int),
        decreases 16 - i,
    {
        stream.push(bytes[i]);
        i = i + 1;
        assert(stream@ =~= old(stream)@ + bytes@.take(i as int));
    }
    assert(bytes@.take(16) =~= bytes@);
}

/// Appends one DHT segment.
fn dht_segment_bytestream(stream: &mut Vec<u8>, id: u8, counts: &[u8; 16], symbols: &[Vec<u8>; 16])
    requires
        symbol_table_fits(*symbols),
    ensures
        final(stream)@ == old(stream)@ + dht_segment(id, *counts, *symbols),
{
    marking(stream, 0xC4);
    let mut total: usize = 0;
    let mut k: usize = 0;
    while k < 16
        invariant
            k <= 16,
            total == symbol_count(symbols@, k as nat),
            symbol_count(symbols@, 16) <= usize::MAX,
        decreases 16 - k,
    {
        proof {
            lemma_symbol_count_mono(symbols@, (k + 1) as nat, 16);
        }
        total = total + symbols[k].len();
        k = k + 1;
    }
    let low: u16 = (total % 65536) as u16;
    mark_size(stream, 19 + low);
    stream.push(id);
    push_array(stream, counts);
    let ghost before = stream@;
    let mut k: usize = 0;
    while k < 16
        invariant
            k <= 16,
            stream@ == before + symbol_bytes(symbols@, k as nat),
        decreases 16 - k,
    {
        push_all(stream, &symbols[k]);
        k = k + 1;
        assert(stream@ =~= before + symbol_bytes(symbols@, k as nat));
    }
    assert(stream@ =~= old(stream)@ + dht_segment(id, *counts, *symbols));
}

/// Whether a table's symbol count fits its segment.
fn table_fits(symbols: &[Vec<u8>; 16]) -> (res: bool)
    ensures
        res == symbol_table_fits(*symbols),
{
    let mut total: u128 = 0;
    let mut k: usize = 0;
    while k < 16
        invariant
            k <= 16,
            total == symbol_count(symbols@, k as nat),
            total <= k * usize::MAX,
        decreases 16 - k,
    {
        total = total + symbols[k].len() as u128;
        k = k + 1;
    }
    total <= usize::MAX as u128 && total % 65536 + 19 <= 65535
}

proof fn lemma_symbol_count_mono(symbols: Seq<Vec<u8>>, a: nat, b: nat)
    requires
        a <= b,
    ensures
        symbol_count(symbols, a) <= symbol_count(symbols, b),
    decreases b - a,
{
    if a < b {
        lemma_symbol_count_mono(symbols, a, (b - 1) as nat);
    }
}

impl JpegFormat {
    /// A frame of `sizex` by `sizey` pixels with `comp` components and no
    /// tables yet; the size in 8x8 blocks is rounded up.
    pub fn new(sizex: u16, sizey: u16, comp: u8, x_sampling: u8, y_sampling: u8) -> (res: Self)
        ensures
            res.sizex == sizex,
            res.sizey == sizey,
            res.comp == comp,
            res.x_sampling == x_sampling,
            res.y_sampling == y_sampling,
            res.huff_deep_ac@.len() == 0,
            res.huff_symbol_ac@.len() == 0,
            res.huff_deep_dc@.len() == 0,
            res.huff_symbol_dc@.len() == 0,
            res.data@.len() == 0,
            res.quant_table@.len() == 0,
            res.bsizex == (sizex + 7) / 8,
            res.bsizey == (sizey + 7) / 8,
    {
        JpegFormat {
            sizex,
            sizey,
            x_sampling,
            y_sampling,
            comp,
            huff_deep_ac: Vec::new(),
            huff_symbol_ac: Vec::new(),
            huff_deep_dc: Vec::new(),
            huff_symbol_dc: Vec::new(),
            data: BitStream { stream: Vec::new() },
            quant_table: Vec::new(),
            bsizex: ((sizex as u32 + 7) / 8) as u16,
            bsizey: ((sizey as u32 + 7) / 8) as u16,
        }
    }

    /// Appends the APP0 (JFIF) segment.
    pub fn jfif_bytestream(&self, stream: &mut Vec<u8>)
        ensures
            final(stream)@ == old(stream)@ + jfif_bytes(),
    {
        marking(stream, 0xE0);
        let size: u16 = 16;
        mark_size(stream, size);
        stream.push(0x4A);
        stream.push(0x46);
        stream.push(0x49);
        stream.push(0x46);
        stream.push(0x00);
        stream.push(0x01);
        stream.push(0x01);
        stream.push(0x01);
        stream.push(0x00);
        stream.push(0x48);
        stream.push(0x00);
        stream.push(0x48);
        stream.push(0x00);
        stream.push(0x00);
        assert(stream@ =~= old(stream)@ + jfif_bytes());
    }

    /// Appends the SOF0 (baseline frame) segment.
    pub fn sof0_bytestream(&self, stream: &mut Vec<u8>)
        requires
            self.comp > 0 ==> sampling_byte(self.x_sampling, self.y_sampling) <= 255,
        ensures
            final(stream)@ == old(stream)@ + sof0_bytes(*self),
    {
        marking(stream, 0xC0);
        mark_size(stream, 8 + 3 * (self.comp as u16));
        stream.push(8);
        mark_size(stream, self.sizey);
        mark_size(stream, self.sizex);
        stream.push(self.comp);
        let ghost before = stream@;
        let mut i: u8 = 0;
        while i < self.comp
            invariant
                i <= self.comp,
                self.comp > 0 ==> sampling_byte(self.x_sampling, self.y_sampling) <= 255,
                stream@ == before + sof0_components(
                    i as nat,
                    self.x_sampling,
                    self.y_sampling,
                    self.quant_table@.len(),
                ),
            decreases self.comp - i,
        {
            stream.push(i);
            let x = self.x_sampling;
            let high: u8 = x << 4;
            assert(x << 4 == ((x * 16) % 256) as u8) by (bit_vector);
            stream.push(high + self.y_sampling);
            let tables = self.quant_table.len();
            let id: u8 = if tables == 0 {
                0
            } else if (i as usize) < tables {
                i
            } else {
                (tables - 1) as u8
            };
            stream.push(id);
            i = i + 1;
            assert(stream@ =~= before + sof0_components(
                i as nat,
                self.x_sampling,
                self.y_sampling,
                self.quant_table@.len(),
            ));
        }
        assert(stream@ =~= old(stream)@ + sof0_bytes(*self));
    }

    /// Appends one DQT segment per quantization table.
    pub fn dqt_bytestream(&self, stream: &mut Vec<u8>)
        ensures
            final(stream)@ == old(stream)@ + dqt_segments(
                self.quant_table@,
                self.quant_table@.len(),
            ),
    {
        let mut i: usize = 0;
        while i < self.quant_table.len()
            invariant
                i <= self.quant_table@.len(),
                stream@ == old(stream)@ + dqt_segments(self.quant_table@, i as nat),
            decreases self.quant_table@.len() - i,
        {
            marking(stream, 0xDB);
            mark_size(stream, 67);
            stream.push((i % 256) as u8);
            push_all(stream, &self.quant_table[i]);
            i = i + 1;
            assert(stream@ =~= old(stream)@ + dqt_segments(self.quant_table@, i as nat));
        }
    }

    /// Appends one DHT segment per DC table, then one per AC table.
    pub fn dht_bytestream(&self, stream: &mut Vec<u8>)
        requires
            dht_fits(*self),
        ensures
            final(stream)@ == old(stream)@ + dht_bytes(*self),
    {
        let mut i: usize = 0;
        while i < self.huff_deep_dc.len()
            invariant
                i <= self.huff_deep_dc@.len(),
                dht_fits(*self),
                stream@ == old(stream)@ + dht_dc_segments(*self, i as nat),
            decreases self.huff_deep_dc@.len() - i,
        {
            assert(symbol_table_fits(self.huff_symbol_dc@[i as int]));
            dht_segment_bytestream(
                stream,
                (i % 256) as u8,
                &self.huff_deep_dc[i],
                &self.huff_symbol_dc[i],
            );
            i = i + 1;
            assert(stream@ =~= old(stream)@ + dht_dc_segments(*self, i as nat));
        }
        let ghost mid = stream@;
        let mut i: usize = 0;
        while i < self.huff_deep_ac.len()
            invariant
                i <= self.huff_deep_ac@.len(),
                dht_fits(*self),
                stream@ == mid + dht_ac_segments(*self, i as nat),
            decreases self.huff_deep_ac@.len() - i,
        {
            assert(symbol_table_fits(self.huff_symbol_ac@[i as int]));
            assert((1u8 << 4u8) == 16u8) by (bit_vector);
            let low: u8 = (i % 256) as u8;
            assert(low < 240);
            let id: u8 = (1u8 << 4u8) + low;
            dht_segment_bytestream(stream, id, &self.huff_deep_ac[i], &self.huff_symbol_ac[i]);
            i = i + 1;
            assert(stream@ =~= mid + dht_ac_segments(*self, i as nat));
        }
        assert(stream@ =~= old(stream)@ + dht_bytes(*self));
    }

    /// Whether [`JpegFormat::create_jpeg_bytestream`] can lay out this frame.
    pub fn check_layout(&self) -> (res: bool)
        ensures
            res == layout_fits(*self),
    {
        if self.comp > 31 {
            return false;
        }
        if self.comp > 0 && (self.x_sampling as u16 * 16) % 256 + self.y_sampling as u16 > 255 {
            return false;
        }
        if self.huff_symbol_dc.len() < self.huff_deep_dc.len() || self.huff_symbol_ac.len()
            < self.huff_deep_ac.len() || self.huff_deep_ac.len() > 240 {
            return false;
        }
        let mut i: usize = 0;
        while i < self.huff_deep_dc.len()
            invariant
                i <= self.huff_deep_dc@.len() <= self.huff_symbol_dc@.len(),
                forall|j: int| 0 <= j < i ==> #[trigger] symbol_table_fits(self.huff_symbol_dc@[j]),
            decreases self.huff_deep_dc@.len() - i,
        {
            if !table_fits(&self.huff_symbol_dc[i]) {
                return false;
            }
            i = i + 1;
        }
        let mut i: usize = 0;
        while i < self.huff_deep_ac.len()
            invariant
                i <= self.huff_deep_ac@.len() <= self.huff_symbol_ac@.len(),
                forall|j: int| 0 <= j < i ==> #[trigger] symbol_table_fits(self.huff_symbol_ac@[j]),
            decreases self.huff_deep_ac@.len() - i,
        {
            if !table_fits(&self.huff_symbol_ac[i]) {
                return false;
            }
            i = i + 1;
        }
        true
    }

    /// Appends the SOS segment and the entropy-coded data, with byte stuffing.
    pub fn sos_bytestream(&self, stream: &mut Vec<u8>)
        requires
            self.comp <= 31,
        ensures
            final(stream)@ == old(stream)@ + sos_bytes(*self),
    {
        marking(stream, 0xDA);
        mark_size(stream, (6 + 2 * self.comp) as u16);
        stream.push(self.comp);
        let ghost before = stream@;
        let mut i: u8 = 0;
        while i < self.comp
            invariant
                i <= self.comp <= 31,
                stream@ == before + sos_components(i as nat),
            decreases self.comp - i,
        {
            stream.push(i);
            let high: u8 = i << 4;
            assert(i << 4 == ((i * 16) % 256) as u8) by (bit_vector);
            assert(i < 31 ==> (i * 16) % 256 + i <= 255) by (bit_vector);
            stream.push(high + i);
            i = i + 1;
            assert(stream@ =~= before + sos_components(i as nat));
        }
        stream.push(0x00);
        stream.push(0x3F);
        stream.push(0x00);
        let bytes = self.data.to_byte(true);
        push_all(stream, &bytes);
        assert(stream@ =~= old(stream)@ + sos_bytes(*self));
    }

    /// The whole JPEG file: start of image, JFIF, frame, quantization and
    /// Huffman tables, scan with its data, end of image.
    pub fn create_jpeg_bytestream(self) -> (res: Vec<u8>)
        requires
            layout_fits(self),
        ensures
            res@ == jpeg_bytes(self),
    {
        let mut stream: Vec<u8> = Vec::new();
        marking(&mut stream, 0xD8);
        self.jfif_bytestream(&mut stream);
        self.sof0_bytestream(&mut stream);
        self.dqt_bytestream(&mut stream);
        self.dht_bytestream(&mut stream);
        self.sos_bytestream(&mut stream);
        marking(&mut stream, 0xD9);
        assert(stream@ =~= jpeg_bytes(self));
        stream
    }
}

} // verus!
