use vstd::prelude::*;

use crate::bitstream::pack_bytes;
use crate::jpeg_format::{
    dht_bytes, dqt_segments, jfif_bytes, jpeg_bytes, marker, size_bytes, sof0_bytes, sos_bytes,
    sos_components, JpegFormat,
};

verus! {

/// A JPEG file starts with the start-of-image marker and ends with the
/// end-of-image marker.
pub proof fn law_jpeg_frame(f: JpegFormat)
    ensures
        jpeg_bytes(f).len() >= 4,
        jpeg_bytes(f).take(2) == marker(0xD8),
        jpeg_bytes(f).skip(jpeg_bytes(f).len() - 2) == marker(0xD9),
{
    let b = jpeg_bytes(f);
    let body = b.take(b.len() - 2);
    assert(b =~= body + marker(0xD9));
    assert(b.take(2) =~= marker(0xD8));
    assert(b.skip(b.len() - 2) =~= marker(0xD9));
}

/// The frame header comes right after the start-of-image marker and the
/// JFIF segment, and gives the image as a decoder must read it: a
/// precision of 8 bits, then the number of lines (the height), then the
/// number of samples per line (the width), each high byte first, then the
/// number of components.
pub proof fn law_sof0_dimensions(f: JpegFormat)
    ensures
        jpeg_bytes(f).len() > 29,
        jpeg_bytes(f).subrange(20, 22) == marker(0xC0),
        jpeg_bytes(f)[24] == 8,
        jpeg_bytes(f)[25] * 256 + jpeg_bytes(f)[26] == f.sizey,
        jpeg_bytes(f)[27] * 256 + jpeg_bytes(f)[28] == f.sizex,
        jpeg_bytes(f)[29] == f.comp,
{
    let b = jpeg_bytes(f);
    let head = marker(0xD8) + jfif_bytes();
    let s = sof0_bytes(f);
    let rest = dqt_segments(f.quant_table@, f.quant_table@.len()) + dht_bytes(f) + sos_bytes(f)
        + marker(0xD9);
    assert(head.len() == 20);
    assert(b =~= head + s + rest);
    assert(s.len() >= 10);
    assert forall|k: int| 0 <= k < 10 implies b[20 + k] == #[trigger] s[k] by {
        assert(b[20 + k] == (head + s)[20 + k]);
    }
    assert(b.subrange(20, 22) =~= marker(0xC0));
    assert(s[5] == size_bytes(f.sizey)[0] && s[6] == size_bytes(f.sizey)[1]);
    assert(s[7] == size_bytes(f.sizex)[0] && s[8] == size_bytes(f.sizex)[1]);
}

/// The component entries of the scan header in order: component `i` and
/// the byte that names its tables.
proof fn lemma_table_byte(x: u8)
    ensures
        ((x * 16) % 256 + x) as u8 == (17 * x) % 256,
{
    assert(((x * 16) % 256 + x) as u8 == (17 * x) % 256) by (bit_vector);
}

proof fn lemma_sos_entries(n: nat)
    requires
        n <= 256,
    ensures
        sos_components(n).len() == 2 * n,
        forall|k: int|
            0 <= k < 2 * n ==> #[trigger] sos_components(n)[k] == if k % 2 == 0 {
                (k / 2) % 256
            } else {
                (17 * (k / 2)) % 256
            },
    decreases n,
{
    if n > 0 {
        let m = (n - 1) as nat;
        lemma_sos_entries(m);
        let prev = sos_components(m);
        let last = seq![m as u8, ((m * 16) % 256 + m) as u8];
        lemma_table_byte(m as u8);
        assert(last[0] == m % 256);
        assert(last[1] == (17 * m) % 256);
        assert(sos_components(n) == prev + last);
        assert forall|k: int| 0 <= k < 2 * n implies #[trigger] sos_components(n)[k] == if k % 2
            == 0 {
            (k / 2) % 256
        } else {
            (17 * (k / 2)) % 256
        } by {
            if k < 2 * m {
                assert(sos_components(n)[k] == prev[k]);
            } else if k == 2 * m {
                assert(sos_components(n)[k] == last[0]);
            } else {
                assert(sos_components(n)[k] == last[1]);
            }
        }
    }
}

/// Entry `i` of a scan header that starts at `p`: the component identifier
/// and the byte that names its DC table (high half) and AC table (low half).
pub open spec fn scan_entry(b: Seq<u8>, p: int, i: int) -> (u8, u8) {
    (b[p + 5 + 2 * i], b[p + 6 + 2 * i])
}

/// The scan header names, for each component `i`, DC table `i` and AC
/// table `i`: the tables the component's data was coded with, which the
/// DHT segments carry under identifier `i`. It stands just before the
/// entropy-coded data and the end-of-image marker.
#[verifier::rlimit(40)]
pub proof fn law_sos_tables(f: JpegFormat)
    ensures
        ({
            let b = jpeg_bytes(f);
            let p = b.len() - pack_bytes(f.data@, true).len() - 2 * f.comp - 10;
            &&& p >= 20
            &&& b.subrange(p, p + 2) == marker(0xDA)
            &&& b[p + 4] == f.comp
            &&& forall|i: int|
                0 <= i < f.comp ==> (#[trigger] scan_entry(b, p, i)).0 == i && scan_entry(b, p, i).1
                    == (16 * i + i) % 256
            &&& forall|i: int|
                0 <= i < f.comp && i < 16 ==> (#[trigger] scan_entry(b, p, i)).1 / 16 == i
                    && scan_entry(b, p, i).1 % 16 == i
        }),
{
    let b = jpeg_bytes(f);
    let n = f.comp as nat;
    let t = pack_bytes(f.data@, true);
    let head = marker(0xD8) + jfif_bytes() + sof0_bytes(f) + dqt_segments(
        f.quant_table@,
        f.quant_table@.len(),
    ) + dht_bytes(f);
    let seg = marker(0xDA) + size_bytes((6 + 2 * f.comp) as u16) + seq![f.comp] + sos_components(n)
        + seq![0x00u8, 0x3Fu8, 0x00u8];
    lemma_sos_entries(n);
    assert(sos_bytes(f) =~= seg + t);
    assert(b =~= head + seg + (t + marker(0xD9)));
    assert(seg.len() == 2 * n + 8);
    let p = head.len() as int;
    assert(p >= 20);
    assert(p == b.len() - t.len() - 2 * f.comp - 10);
    assert forall|k: int| 0 <= k < seg.len() implies b[p + k] == #[trigger] seg[k] by {
        assert(b[p + k] == (head + seg)[p + k]);
    }
    assert(b.subrange(p, p + 2) =~= marker(0xDA)) by {
        assert(b[p] == seg[0]);
        assert(b[p + 1] == seg[1]);
    }
    assert(b[p + 4] == seg[4]);
    assert forall|i: int| 0 <= i < f.comp implies (#[trigger] scan_entry(b, p, i)).0 == i
        && scan_entry(b, p, i).1 == (16 * i + i) % 256 && (i < 16 ==> scan_entry(b, p, i).1 / 16
        == i && scan_entry(b, p, i).1 % 16 == i) by {
        assert(seg[5 + 2 * i] == sos_components(n)[2 * i]);
        assert(seg[6 + 2 * i] == sos_components(n)[2 * i + 1]);
        assert((2 * i + 1) / 2 == i && (2 * i) / 2 == i);
        assert(b[p + (5 + 2 * i)] == seg[5 + 2 * i]);
        assert(b[p + (6 + 2 * i)] == seg[6 + 2 * i]);
    }
}

/// The grid of 8x8 blocks that a frame is cut into covers the whole image
/// and no more than one block beyond its edge.
pub proof fn law_block_grid(size: u16)
    ensures
        ((size + 7) / 8) * 8 >= size,
        ((size + 7) / 8) * 8 < size + 8,
{
}

} // verus!
