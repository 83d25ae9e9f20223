use vstd::prelude::*;

use crate::bloc::pieces_ok;
use crate::cmd::ImageFormat;
use crate::bitstream::{lemma_low_bits_len, low_bits, msb_bits};
use crate::jpeg_format::JpegFormat;
use crate::text::{decimal_upto, parse_decimal};
use crate::JpegError;

verus! {

pub open spec fn is_line_end(b: u8) -> bool {
    b == 0x0A
}

pub open spec fn is_separator(b: u8) -> bool {
    b == 0x0A || b == 0x09 || b == 0x20
}

/// Where the first line of `r` ends: the index of the first line feed, or
/// the length.
pub open spec fn line_end(r: Seq<u8>) -> nat
    decreases r.len(),
{
    if r.len() == 0 || is_line_end(r[0]) {
        0
    } else {
        1 + line_end(r.drop_first())
    }
}

/// Where the first word of `r` ends: the index of the first line feed, tab
/// or space, or the length.
pub open spec fn word_end(r: Seq<u8>) -> nat
    decreases r.len(),
{
    if r.len() == 0 || is_separator(r[0]) {
        0
    } else {
        1 + word_end(r.drop_first())
    }
}

/// The first line of `r` without its line feed, and what follows the line feed.
pub open spec fn next_line(r: Seq<u8>) -> (Seq<u8>, Seq<u8>) {
    let k = line_end(r);
    if k < r.len() {
        (r.take(k as int), r.skip((k + 1) as int))
    } else {
        (r, Seq::empty())
    }
}

/// The first word of `r`, the separator after it (0 at the end of the
/// data) and what follows the separator.
pub open spec fn next_word(r: Seq<u8>) -> (Seq<u8>, u8, Seq<u8>) {
    let k = word_end(r);
    if k < r.len() {
        (r.take(k as int), r[k as int], r.skip((k + 1) as int))
    } else {
        (r, 0u8, Seq::empty())
    }
}

/// How reading a piece of text ends: with text that cannot be read at all
/// (`Fault`), an error, or the piece and the data after it.
pub enum Scan {
    Fault,
    Fail(JpegError),
    Got(Seq<u8>, Seq<u8>),
}

/// The first character of a text is cut off on its own: that takes a text
/// that is not empty and starts with a one-byte character.
pub open spec fn first_char_cut(t: Seq<u8>) -> bool {
    t.len() > 0 && t[0] < 0x80
}

/// The first line ends at the first line feed.
pub proof fn lemma_line_end(r: Seq<u8>)
    ensures
        line_end(r) <= r.len(),
        line_end(r) < r.len() ==> is_line_end(r[line_end(r) as int]),
        forall|i: int| 0 <= i < line_end(r) ==> !is_line_end(#[trigger] r[i]),
    decreases r.len(),
{
    if r.len() > 0 && !is_line_end(r[0]) {
        lemma_line_end(r.drop_first());
        assert forall|i: int| 0 <= i < line_end(r) implies !is_line_end(#[trigger] r[i]) by {
            if i > 0 {
                assert(r[i] == r.drop_first()[i - 1]);
            }
        }
    }
}

/// The first word ends at the first line feed, tab or space.
pub proof fn lemma_word_end(r: Seq<u8>)
    ensures
        word_end(r) <= r.len(),
        word_end(r) < r.len() ==> is_separator(r[word_end(r) as int]),
        forall|i: int| 0 <= i < word_end(r) ==> !is_separator(#[trigger] r[i]),
    decreases r.len(),
{
    if r.len() > 0 && !is_separator(r[0]) {
        lemma_word_end(r.drop_first());
        assert forall|i: int| 0 <= i < word_end(r) implies !is_separator(#[trigger] r[i]) by {
            if i > 0 {
                assert(r[i] == r.drop_first()[i - 1]);
            }
        }
    }
}

/// Reading a line leaves fewer bytes.
pub proof fn lemma_next_line_len(r: Seq<u8>)
    ensures
        next_line(r).1.len() + next_line(r).0.len() <= r.len(),
        r.len() > 0 ==> next_line(r).1.len() < r.len(),
{
    lemma_line_end(r);
}

/// Reading a word leaves fewer bytes.
pub proof fn lemma_next_word_len(r: Seq<u8>)
    ensures
        next_word(r).2.len() + next_word(r).0.len() <= r.len(),
        r.len() > 0 ==> next_word(r).2.len() < r.len(),
{
    lemma_word_end(r);
}

/// The first word that is not a comment: a word starting with `#` is
/// dropped with the rest of its line, and the empty words between the
/// blanks of a run are skipped. A word has to be valid text and start with
/// a one-byte character; an empty word at the end of the data cannot be
/// read.
pub open spec fn comment_word(r: Seq<u8>) -> Scan
    decreases r.len(),
{
    let (t, sep, rest) = next_word(r);
    if !vstd::utf8::valid_utf8(t) {
        Scan::Fail(JpegError::ParseError)
    } else if t.len() == 0 && sep != 0 {
        proof {
            lemma_next_word_len(r);
        }
        comment_word(rest)
    } else if !first_char_cut(t) {
        Scan::Fault
    } else if t[0] != 0x23 {
        Scan::Got(t, rest)
    } else if sep != 0x0A {
        let (line, rest2) = next_line(rest);
        if !vstd::utf8::valid_utf8(line) {
            Scan::Fail(JpegError::ParseError)
        } else {
            proof {
                lemma_next_word_len(r);
                lemma_next_line_len(rest);
            }
            comment_word(rest2)
        }
    } else {
        proof {
            lemma_next_word_len(r);
        }
        comment_word(rest)
    }
}

/// The first line that is not a comment line (a line starting with `#`).
/// A line has to be valid text, and one that is not empty must start with
/// a one-byte character.
pub open spec fn comment_line(r: Seq<u8>) -> Scan
    decreases r.len(),
{
    let (line, rest) = next_line(r);
    if !vstd::utf8::valid_utf8(line) {
        Scan::Fail(JpegError::ParseError)
    } else if line.len() != 0 && !first_char_cut(line) {
        Scan::Fault
    } else if line.len() != 0 && line[0] == 0x23 {
        proof {
            lemma_next_line_len(r);
        }
        comment_line(rest)
    } else {
        Scan::Got(line, rest)
    }
}

/// The first line, as bytes, that does not start with `#`, and what follows it.
pub open spec fn comment_byte_line(r: Seq<u8>) -> (Seq<u8>, Seq<u8>)
    decreases r.len(),
{
    let (line, rest) = next_line(r);
    if line.len() != 0 && line[0] == 0x23 {
        proof {
            lemma_next_line_len(r);
        }
        comment_byte_line(rest)
    } else {
        (line, rest)
    }
}

/// The largest sample value, whether the samples are bytes, and the number
/// of components, for each magic number of the pixmap family; a largest
/// value of 0 is read from the header.
pub open spec fn magic(t: Seq<u8>) -> Option<(u8, bool, u8)> {
    if t == seq![0x50u8, 0x31u8] {
        Some((1u8, false, 1u8))
    } else if t == seq![0x50u8, 0x34u8] {
        Some((1u8, true, 1u8))
    } else if t == seq![0x50u8, 0x32u8] {
        Some((0u8, false, 1u8))
    } else if t == seq![0x50u8, 0x35u8] {
        Some((0u8, true, 1u8))
    } else if t == seq![0x50u8, 0x33u8] {
        Some((0u8, false, 3u8))
    } else if t == seq![0x50u8, 0x36u8] {
        Some((0u8, true, 3u8))
    } else {
        None
    }
}

/// How reading the header ends.
pub enum Header {
    Fault,
    Fail(JpegError),
    Got { max: u8, isbyte: bool, comp: u8, sizex: u16, sizey: u16, bitmap: bool, rest: Seq<u8> },
}

/// A number word of the header, at most `max`.
pub open spec fn header_number(s: Scan, max: nat) -> Option<Result<(nat, Seq<u8>), JpegError>> {
    match s {
        Scan::Fault => None,
        Scan::Fail(e) => Some(Err(e)),
        Scan::Got(t, rest) => match decimal_upto(t, max) {
            Some(v) => Some(Ok((v, rest))),
            None => Some(Err(JpegError::ParseError)),
        },
    }
}

/// The header: magic number, width, height and, unless the magic number
/// fixes it, the largest sample value.
pub open spec fn header(r: Seq<u8>) -> Header {
    match comment_word(r) {
        Scan::Fault => Header::Fault,
        Scan::Fail(e) => Header::Fail(e),
        Scan::Got(pix, r1) => match magic(pix) {
            None => Header::Fail(JpegError::FormatError),
            Some((max0, isbyte, comp)) => match header_number(comment_word(r1), 65535) {
                None => Header::Fault,
                Some(Err(e)) => Header::Fail(e),
                Some(Ok((x, r2))) => match header_number(comment_word(r2), 65535) {
                    None => Header::Fault,
                    Some(Err(e)) => Header::Fail(e),
                    Some(Ok((y, r3))) => if max0 != 1 {
                        match header_number(comment_word(r3), 255) {
                            None => Header::Fault,
                            Some(Err(e)) => Header::Fail(e),
                            Some(Ok((m, r4))) => Header::Got {
                                max: m as u8,
                                isbyte,
                                comp,
                                sizex: x as u16,
                                sizey: y as u16,
                                bitmap: false,
                                rest: r4,
                            },
                        }
                    } else {
                        Header::Got {
                            max: 1,
                            isbyte,
                            comp,
                            sizex: x as u16,
                            sizey: y as u16,
                            bitmap: true,
                            rest: r3,
                        }
                    },
                },
            },
        },
    }
}

/// A sample scaled to the range 0 to 255: multiplied by `255 / max`. That
/// takes a largest value that is not 0 and a product that fits in a byte.
pub open spec fn scale_fits(b: u8, max: u8) -> bool {
    max != 0 && b * (255u8 / max) <= 255
}

pub open spec fn scale(b: u8, max: u8) -> u8 {
    (b * (255u8 / max)) as u8
}

/// How reading the samples ends.
pub enum Samples {
    Fault,
    Fail(JpegError),
    Got(Seq<u8>),
}

/// The samples of byte formats: every byte of the raster after the header,
/// each scaled.
pub open spec fn byte_samples(r: Seq<u8>, max: u8) -> Samples {
    if exists|i: int| 0 <= i < r.len() && !scale_fits(#[trigger] r[i], max) {
        Samples::Fault
    } else {
        Samples::Got(r.map_values(|b: u8| scale(b, max)))
    }
}

/// A space, tab or carriage return: what separates the samples of a line.
pub open spec fn is_blank(b: u8) -> bool {
    b == 0x20 || b == 0x09 || b == 0x0D
}

/// The pieces of a text between single blanks, empty pieces included.
pub open spec fn split_blanks(s: Seq<u8>) -> Seq<Seq<u8>>
    decreases s.len(),
{
    if s.len() == 0 {
        seq![Seq::empty()]
    } else {
        let prev = split_blanks(s.drop_last());
        if is_blank(s.last()) {
            prev.push(Seq::empty())
        } else {
            prev.update(prev.len() - 1, prev.last().push(s.last()))
        }
    }
}

/// The pieces that are not empty.
pub open spec fn drop_empty(ws: Seq<Seq<u8>>) -> Seq<Seq<u8>>
    decreases ws.len(),
{
    if ws.len() == 0 {
        Seq::empty()
    } else {
        let prev = drop_empty(ws.drop_last());
        if ws.last().len() == 0 {
            prev
        } else {
            prev.push(ws.last())
        }
    }
}

/// The words of a line of text samples: the pieces between runs of blanks.
pub open spec fn sample_words(line: Seq<u8>) -> Seq<Seq<u8>> {
    drop_empty(split_blanks(line))
}

/// The samples of one line of a plain bitmap: each `1` is a black pixel
/// (0), each `0` a white one (255), and blanks are skipped; `None` when the
/// line holds anything else.
pub open spec fn pbm_line(line: Seq<u8>) -> Option<Seq<u8>>
    decreases line.len(),
{
    if line.len() == 0 {
        Some(Seq::empty())
    } else {
        match pbm_line(line.drop_last()) {
            None => None,
            Some(p) => if is_blank(line.last()) {
                Some(p)
            } else if line.last() == 0x30 {
                Some(p.push(255u8))
            } else if line.last() == 0x31 {
                Some(p.push(0u8))
            } else {
                None
            },
        }
    }
}

/// The samples of a plain bitmap (P1): line after line of pixels, up to
/// the first empty line or the end; a character other than a blank, `0`
/// or `1` is a format error.
pub open spec fn pbm_text_samples(r: Seq<u8>) -> Samples
    decreases r.len(),
{
    match comment_line(r) {
        Scan::Fault => Samples::Fault,
        Scan::Fail(e) => Samples::Fail(e),
        Scan::Got(line, rest) => if line.len() == 0 {
            Samples::Got(Seq::empty())
        } else {
            match pbm_line(line) {
                None => Samples::Fail(JpegError::FormatError),
                Some(p) => {
                    proof {
                        lemma_comment_line_shorter(r);
                    }
                    match pbm_text_samples(rest) {
                        Samples::Got(d) => Samples::Got(p + d),
                        other => other,
                    }
                },
            }
        },
    }
}

/// The bytes of one row of a raw bitmap (P4): eight pixels a byte.
pub open spec fn pbm_row_bytes(w: nat) -> nat {
    (w + 7) / 8
}

/// Where pixel `k` of a raw bitmap of width `w` lies in the raster.
pub open spec fn pbm_byte_index(w: nat, k: nat) -> nat {
    (k / w) * pbm_row_bytes(w) + (k % w) / 8
}

/// Pixel `k` of a raw bitmap: its bit, most significant first in each byte;
/// a set bit is black (0), a clear one white (255).
pub open spec fn pbm_pixel(r: Seq<u8>, w: nat, k: nat) -> u8 {
    if low_bits(r[pbm_byte_index(w, k) as int] as nat, 8)[((k % w) % 8) as int] {
        0
    } else {
        255
    }
}

/// How many of the first `n` pixels, counting from `k`, the raster holds.
pub open spec fn pbm_count(r: Seq<u8>, w: nat, n: nat, k: nat) -> nat
    decreases n - k,
{
    if k >= n || pbm_byte_index(w, k) >= r.len() {
        k
    } else {
        pbm_count(r, w, n, k + 1)
    }
}

/// The samples of a raw bitmap of `w` by `h` pixels, as far as the raster
/// holds them.
pub open spec fn pbm_bytes(r: Seq<u8>, w: nat, h: nat) -> Seq<u8> {
    Seq::new(pbm_count(r, w, w * h, 0), |k: int| pbm_pixel(r, w, k as nat))
}

/// A number word of a text line reads without fault: a number from 0 to
/// 255 must scale.
pub open spec fn word_scales(t: Seq<u8>, max: u8) -> bool {
    match decimal_upto(t, 255) {
        Some(v) => scale_fits(v as u8, max),
        None => true,
    }
}

/// The scaled numbers of a line of text samples.
pub open spec fn scaled_words(words: Seq<Seq<u8>>, max: u8) -> Seq<u8> {
    words.map_values(|t: Seq<u8>| scale(decimal_upto(t, 255).unwrap() as u8, max))
}

/// The samples of text formats: line after line of numbers separated by
/// runs of blanks, each scaled, up to the first empty line or the end; a
/// word that is not a number from 0 to 255 is a format error.
pub open spec fn text_samples(r: Seq<u8>, max: u8) -> Samples
    decreases r.len(),
{
    match comment_line(r) {
        Scan::Fault => Samples::Fault,
        Scan::Fail(e) => Samples::Fail(e),
        Scan::Got(line, rest) => if line.len() == 0 {
            Samples::Got(Seq::empty())
        } else {
            let words = sample_words(line);
            if exists|k: int| 0 <= k < words.len() && !word_scales(#[trigger] words[k], max) {
                Samples::Fault
            } else if !pieces_ok(words) {
                Samples::Fail(JpegError::FormatError)
            } else {
                proof {
                    lemma_comment_line_shorter(r);
                }
                match text_samples(rest, max) {
                    Samples::Got(d) => Samples::Got(scaled_words(words, max) + d),
                    other => other,
                }
            }
        },
    }
}

/// Skipping comment lines leaves no more bytes than there were, and fewer
/// when the line found is not empty.
pub proof fn lemma_comment_line_shorter(r: Seq<u8>)
    ensures
        comment_line(r) matches Scan::Got(line, rest) ==> rest.len() + line.len() <= r.len() && (
        line.len() > 0 ==> rest.len() < r.len()),
    decreases r.len(),
{
    lemma_next_line_len(r);
    let (line, rest) = next_line(r);
    if vstd::utf8::valid_utf8(line) && !(line.len() != 0 && !first_char_cut(line)) && line.len()
        != 0 && line[0] == 0x23 {
        lemma_comment_line_shorter(rest);
    }
}

/// How reading a pixmap ends.
pub enum PixmapOutcome {
    Fault,
    Fail(JpegError),
    Parsed { sizex: u16, sizey: u16, comp: u8, data: Seq<u8> },
}

/// Reading a portable bitmap, graymap or pixmap: the header, then the
/// samples.
pub open spec fn pixmap_outcome(r: Seq<u8>) -> PixmapOutcome {
    match header(r) {
        Header::Fault => PixmapOutcome::Fault,
        Header::Fail(e) => PixmapOutcome::Fail(e),
        Header::Got { max, isbyte, comp, sizex, sizey, bitmap, rest } => {
            let s = if bitmap {
                if isbyte {
                    Samples::Got(pbm_bytes(rest, sizex as nat, sizey as nat))
                } else {
                    pbm_text_samples(rest)
                }
            } else if isbyte {
                byte_samples(rest, max)
            } else {
                text_samples(rest, max)
            };
            match s {
                Samples::Fault => PixmapOutcome::Fault,
                Samples::Fail(e) => PixmapOutcome::Fail(e),
                Samples::Got(data) => PixmapOutcome::Parsed { sizex, sizey, comp, data },
            }
        },
    }
}


/// `std::str::from_utf8` accepts a byte slice exactly when it is valid
/// UTF-8: no overlong forms, no surrogates, nothing above U+10FFFF.
#[verifier::external_body]
fn is_utf8(bytes: &[u8]) -> (res: bool)
    ensures
        res == vstd::utf8::valid_utf8(bytes@),
{
    std::str::from_utf8(bytes).is_ok()
}

proof fn lemma_line_end_at(r: Seq<u8>, j: int)
    requires
        0 <= j <= r.len(),
        forall|i: int| 0 <= i < j ==> !is_line_end(#[trigger] r[i]),
        j == r.len() || is_line_end(r[j]),
    ensures
        line_end(r) == j,
    decreases j,
{
    if j > 0 {
        assert(!is_line_end(r[0]));
        assert forall|i: int| 0 <= i < j - 1 implies !is_line_end(#[trigger] r.drop_first()[i]) by {
            assert(r.drop_first()[i] == r[i + 1]);
        }
        lemma_line_end_at(r.drop_first(), j - 1);
    }
}

proof fn lemma_word_end_at(r: Seq<u8>, j: int)
    requires
        0 <= j <= r.len(),
        forall|i: int| 0 <= i < j ==> !is_separator(#[trigger] r[i]),
        j == r.len() || is_separator(r[j]),
    ensures
        word_end(r) == j,
    decreases j,
{
    if j > 0 {
        assert(!is_separator(r[0]));
        assert forall|i: int| 0 <= i < j - 1 implies !is_separator(#[trigger] r.drop_first()[i]) by {
            assert(r.drop_first()[i] == r[i + 1]);
        }
        lemma_word_end_at(r.drop_first(), j - 1);
    }
}

/// The bytes of an image file, read front to back.
pub struct FileReader {
    data: Vec<u8>,
    pos: usize,
}

impl View for FileReader {
    type V = Seq<u8>;

    /// The bytes not read yet.
    closed spec fn view(&self) -> Seq<u8> {
        self.data@.skip(self.pos as int)
    }
}

/// What a scan gives and leaves: the outcome `s`, the result `res` and the
/// bytes `rest` left unread.
pub open spec fn scan_result(s: Scan, res: Option<Result<Vec<u8>, JpegError>>, rest: Seq<u8>) -> bool {
    match s {
        Scan::Fault => res is None,
        Scan::Fail(e) => res == Some(Err::<Vec<u8>, JpegError>(e)),
        Scan::Got(t, r) => res matches Some(Ok(v)) && v@ == t && rest == r,
    }
}

impl FileReader {
    pub closed spec fn wf(&self) -> bool {
        self.pos <= self.data@.len()
    }

    /// A reader at the start of `file`.
    pub fn new(file: Vec<u8>) -> (res: Self)
        ensures
            res.wf(),
            res@ == file@,
    {
        let res = FileReader { data: file, pos: 0 };
        assert(res.data@.skip(0) =~= res.data@);
        res
    }

    /// The next line without its line feed; the line feed is read too.
    pub fn next_line_as_bytes(&mut self) -> (line: Vec<u8>)
        requires
            old(self).wf(),
        ensures
            final(self).wf(),
            (line@, final(self)@) == next_line(old(self)@),
    {
        let ghost r = self@;
        let start = self.pos;
        let mut line: Vec<u8> = Vec::new();
        while self.pos < self.data.len() && self.data[self.pos] != 0x0A
            invariant
                self.wf(),
                start <= self.pos,
                r == self.data@.skip(start as int),
                line@ == r.take(self.pos - start),
                forall|i: int| 0 <= i < self.pos - start ==> !is_line_end(#[trigger] r[i]),
            decreases self.data@.len() - self.pos,
        {
            line.push(self.data[self.pos]);
            self.pos = self.pos + 1;
            assert(line@ =~= r.take(self.pos - start));
        }
        proof {
            lemma_line_end_at(r, self.pos - start);
        }
        if self.pos < self.data.len() {
            self.pos = self.pos + 1;
            assert(self.data@.skip(self.pos as int) =~= r.skip(self.pos - start));
        } else {
            assert(line@ =~= r);
            assert(self.data@.skip(self.pos as int) =~= Seq::<u8>::empty());
        }
        line
    }

    /// The next line, which must be valid text; the line feed is read too.
    pub fn next_line_as_str(&mut self) -> (res: Result<Vec<u8>, JpegError>)
        requires
            old(self).wf(),
        ensures
            final(self).wf(),
            final(self)@ == next_line(old(self)@).1,
            match res {
                Ok(v) => v@ == next_line(old(self)@).0 && vstd::utf8::valid_utf8(v@),
                Err(e) => !vstd::utf8::valid_utf8(next_line(old(self)@).0) && e
                    == JpegError::ParseError,
            },
    {
        let line = self.next_line_as_bytes();
        if is_utf8(line.as_slice()) {
            Ok(line)
        } else {
            Err(JpegError::ParseError)
        }
    }

    /// The next word, which must be valid text, and the line feed, tab or
    /// space after it (0 at the end of the data), which is read too.
    pub fn next_separator_as_str(&mut self) -> (res: Result<(Vec<u8>, u8), JpegError>)
        requires
            old(self).wf(),
        ensures
            final(self).wf(),
            final(self)@ == next_word(old(self)@).2,
            match res {
                Ok((v, sep)) => v@ == next_word(old(self)@).0 && sep == next_word(old(self)@).1
                    && vstd::utf8::valid_utf8(v@),
                Err(e) => !vstd::utf8::valid_utf8(next_word(old(self)@).0) && e
                    == JpegError::ParseError,
            },
    {
        let ghost r = self@;
        let start = self.pos;
        let mut part: Vec<u8> = Vec::new();
        while self.pos < self.data.len() && !(self.data[self.pos] == 0x0A || self.data[self.pos]
            == 0x09 || self.data[self.pos] == 0x20)
            invariant
                self.wf(),
                start <= self.pos,
                r == self.data@.skip(start as int),
                part@ == r.take(self.pos - start),
                forall|i: int| 0 <= i < self.pos - start ==> !is_separator(#[trigger] r[i]),
            decreases self.data@.len() - self.pos,
        {
            part.push(self.data[self.pos]);
            self.pos = self.pos + 1;
            assert(part@ =~= r.take(self.pos - start));
        }
        proof {
            lemma_word_end_at(r, self.pos - start);
        }
        let mut sep: u8 = 0;
        if self.pos < self.data.len() {
            sep = self.data[self.pos];
            self.pos = self.pos + 1;
            assert(self.data@.skip(self.pos as int) =~= r.skip(self.pos - start));
        } else {
            assert(part@ =~= r);
            assert(self.data@.skip(self.pos as int) =~= Seq::<u8>::empty());
        }
        if is_utf8(part.as_slice()) {
            Ok((part, sep))
        } else {
            Err(JpegError::ParseError)
        }
    }

    /// All the bytes not read yet.
    pub fn remaining_data(&mut self) -> (res: Vec<u8>)
        requires
            old(self).wf(),
        ensures
            final(self).wf(),
            res@ == old(self)@,
            final(self)@ == Seq::<u8>::empty(),
    {
        let ghost r = self@;
        let mut res: Vec<u8> = Vec::new();
        let start = self.pos;
        while self.pos < self.data.len()
            invariant
                self.wf(),
                start <= self.pos,
                r == self.data@.skip(start as int),
                res@ == r.take(self.pos - start),
            decreases self.data@.len() - self.pos,
        {
            res.push(self.data[self.pos]);
            self.pos = self.pos + 1;
            assert(res@ =~= r.take(self.pos - start));
        }
        assert(res@ =~= r);
        assert(self.data@.skip(self.pos as int) =~= Seq::<u8>::empty());
        res
    }

    /// A copy of the reader at the same place.
    pub fn duplicate(&self) -> (res: Self)
        requires
            self.wf(),
        ensures
            res.wf(),
            res@ == self@,
    {
        let mut data: Vec<u8> = Vec::new();
        let mut i: usize = 0;
        while i < self.data.len()
            invariant
                i <= self.data@.len(),
                data@ == self.data@.take(i as int),
            decreases self.data@.len() - i,
        {
            data.push(self.data[i]);
            i = i + 1;
            assert(data@ =~= self.data@.take(i as int));
        }
        assert(data@ =~= self.data@);
        FileReader { data, pos: self.pos }
    }
}

/// The first word that is not a comment, skipping runs of blanks; `None`
/// where reading cannot go on: an empty word at the end of the data, or a
/// word that starts with a character of several bytes.
pub fn parse_pixmap_comment(lines: &mut FileReader) -> (res: Option<Result<Vec<u8>, JpegError>>)
    requires
        old(lines).wf(),
    ensures
        final(lines).wf(),
        scan_result(comment_word(old(lines)@), res, final(lines)@),
{
    let ghost r0 = lines@;
    let ghost mut prev = lines@;
    let (mut data, mut sep) = match lines.next_separator_as_str() {
        Ok(p) => p,
        Err(e) => {
            return Some(Err(e));
        },
    };
    loop
        invariant
            lines.wf(),
            comment_word(prev) == comment_word(r0),
            r0 == old(lines)@,
            next_word(prev) == (data@, sep, lines@),
            vstd::utf8::valid_utf8(data@),
        decreases prev.len(),
    {
        if data.len() == 0 && sep != 0 {
            proof {
                lemma_next_word_len(prev);
                prev = lines@;
            }
            match lines.next_separator_as_str() {
                Ok((d, s)) => {
                    data = d;
                    sep = s;
                },
                Err(e) => {
                    return Some(Err(e));
                },
            }
            continue;
        }
        if !(data.len() > 0 && data[0] < 0x80) {
            return None;
        }
        if data[0] != 0x23 {
            return Some(Ok(data));
        }
        proof {
            lemma_next_word_len(prev);
        }
        if sep != 0x0A {
            match lines.next_line_as_str() {
                Ok(_) => {},
                Err(e) => {
                    return Some(Err(e));
                },
            }
        }
        proof {
            lemma_next_line_len(next_word(prev).2);
            prev = lines@;
        }
        match lines.next_separator_as_str() {
            Ok((d, s)) => {
                data = d;
                sep = s;
            },
            Err(e) => {
                return Some(Err(e));
            },
        }
    }
}

/// The first line that is not a comment line; `None` where reading cannot go
/// on: a line that starts with a character of several bytes.
pub fn parse_pixmap_comment_line(lines: &mut FileReader) -> (res: Option<Result<Vec<u8>, JpegError>>)
    requires
        old(lines).wf(),
    ensures
        final(lines).wf(),
        scan_result(comment_line(old(lines)@), res, final(lines)@),
{
    let ghost r0 = lines@;
    let ghost mut prev = lines@;
    let mut data = match lines.next_line_as_str() {
        Ok(d) => d,
        Err(e) => {
            return Some(Err(e));
        },
    };
    loop
        invariant
            lines.wf(),
            comment_line(prev) == comment_line(r0),
            r0 == old(lines)@,
            next_line(prev) == (data@, lines@),
            vstd::utf8::valid_utf8(data@),
        decreases prev.len(),
    {
        if data.len() != 0 && !(data[0] < 0x80) {
            return None;
        }
        if !(data.len() != 0 && data[0] == 0x23) {
            return Some(Ok(data));
        }
        proof {
            lemma_next_line_len(prev);
            prev = lines@;
        }
        data = match lines.next_line_as_str() {
            Ok(d) => d,
            Err(e) => {
                return Some(Err(e));
            },
        };
    }
}

/// The first line, as bytes, that does not start with `#`.
pub fn parse_pixmap_comment_byte(lines: &mut FileReader) -> (res: Vec<u8>)
    requires
        old(lines).wf(),
    ensures
        final(lines).wf(),
        (res@, final(lines)@) == comment_byte_line(old(lines)@),
{
    let ghost r0 = lines@;
    let ghost mut prev = lines@;
    let mut data = lines.next_line_as_bytes();
    while data.len() != 0 && data[0] == 0x23
        invariant
            lines.wf(),
            comment_byte_line(prev) == comment_byte_line(r0),
            r0 == old(lines)@,
            next_line(prev) == (data@, lines@),
        decreases prev.len(),
    {
        proof {
            lemma_next_line_len(prev);
            prev = lines@;
        }
        data = lines.next_line_as_bytes();
    }
    data
}

/// What reading the header gives and leaves.
pub open spec fn header_result(
    h: Header,
    res: Option<Result<(u8, bool, u8, u16, u16, bool), JpegError>>,
    rest: Seq<u8>,
) -> bool {
    match h {
        Header::Fault => res is None,
        Header::Fail(e) => res == Some(Err::<(u8, bool, u8, u16, u16, bool), JpegError>(e)),
        Header::Got { max, isbyte, comp, sizex, sizey, bitmap, rest: r } => res == Some(
            Ok::<(u8, bool, u8, u16, u16, bool), JpegError>((max, isbyte, comp, sizex, sizey, bitmap)),
        ) && rest == r,
    }
}

/// The number in a whole word, if it is at most `max`.
fn word_number(w: &Vec<u8>, max: u32) -> (res: Option<u32>)
    requires
        max <= 65535,
    ensures
        match decimal_upto(w@, max as nat) {
            Some(v) => res == Some(v as u32),
            None => res is None,
        },
{
    assert(w@.subrange(0, w@.len() as int) =~= w@);
    parse_decimal(w.as_slice(), 0, w.len(), max)
}

/// Reads the header: magic number, width, height and, unless the magic
/// number fixes it, the largest sample value; and whether the file is a
/// bitmap.
pub fn read_header(lines: &mut FileReader) -> (res: Option<Result<(u8, bool, u8, u16, u16, bool), JpegError>>)
    requires
        old(lines).wf(),
    ensures
        final(lines).wf(),
        header_result(header(old(lines)@), res, final(lines)@),
{
    let ghost r0 = lines@;
    let pix = match parse_pixmap_comment(lines) {
        None => {
            return None;
        },
        Some(Err(e)) => {
            return Some(Err(e));
        },
        Some(Ok(p)) => p,
    };
    let ghost r1 = lines@;
    if !(pix.len() == 2 && pix[0] == 0x50) {
        assert(magic(pix@) is None);
        return Some(Err(JpegError::FormatError));
    }
    let (max0, isbyte, comp): (u8, bool, u8) = if pix[1] == 0x31 {
        (1, false, 1)
    } else if pix[1] == 0x34 {
        (1, true, 1)
    } else if pix[1] == 0x32 {
        (0, false, 1)
    } else if pix[1] == 0x35 {
        (0, true, 1)
    } else if pix[1] == 0x33 {
        (0, false, 3)
    } else if pix[1] == 0x36 {
        (0, true, 3)
    } else {
        assert(magic(pix@) is None);
        return Some(Err(JpegError::FormatError));
    };
    assert(pix@ =~= seq![0x50u8, pix@[1]]);
    assert(magic(pix@) == Some((max0, isbyte, comp)));
    let sx = match parse_pixmap_comment(lines) {
        None => {
            return None;
        },
        Some(Err(e)) => {
            return Some(Err(e));
        },
        Some(Ok(w)) => w,
    };
    let sizex: u16 = match word_number(&sx, 65535) {
        Some(v) => v as u16,
        None => {
            return Some(Err(JpegError::ParseError));
        },
    };
    let sy = match parse_pixmap_comment(lines) {
        None => {
            return None;
        },
        Some(Err(e)) => {
            return Some(Err(e));
        },
        Some(Ok(w)) => w,
    };
    let sizey: u16 = match word_number(&sy, 65535) {
        Some(v) => v as u16,
        None => {
            return Some(Err(JpegError::ParseError));
        },
    };
    let mut max = max0;
    if max0 != 1 {
        let m = match parse_pixmap_comment(lines) {
            None => {
                return None;
            },
            Some(Err(e)) => {
                return Some(Err(e));
            },
            Some(Ok(w)) => w,
        };
        max = match word_number(&m, 255) {
            Some(v) => v as u8,
            None => {
                return Some(Err(JpegError::ParseError));
            },
        };
    }
    Some(Ok((max, isbyte, comp, sizex, sizey, max0 == 1)))
}

/// What reading the samples gives.
pub open spec fn samples_result(s: Samples, res: Option<Result<Vec<u8>, JpegError>>) -> bool {
    match s {
        Samples::Fault => res is None,
        Samples::Fail(e) => res == Some(Err::<Vec<u8>, JpegError>(e)),
        Samples::Got(d) => res matches Some(Ok(v)) && v@ == d,
    }
}

/// A sample scaled to 0..=255; `None` where the scaling would divide by
/// zero or overflow.
fn scale_sample(b: u8, max: u8) -> (res: Option<u8>)
    ensures
        match res {
            Some(v) => scale_fits(b, max) && v == scale(b, max),
            None => !scale_fits(b, max),
        },
{
    if max == 0 {
        return None;
    }
    let f: u8 = 255 / max;
    assert((b as u16) * (f as u16) <= 65025) by (nonlinear_arith)
        requires
            b <= 255,
            f <= 255,
    ;
    let prod: u16 = b as u16 * f as u16;
    if prod > 255 {
        return None;
    }
    Some(prod as u8)
}

/// The samples of byte formats: every byte of the raster after the header,
/// each scaled; `None` where a byte cannot be scaled.
pub fn read_byte_samples(lines: &mut FileReader, max: u8) -> (res: Option<Result<Vec<u8>, JpegError>>)
    requires
        old(lines).wf(),
    ensures
        final(lines).wf(),
        samples_result(byte_samples(old(lines)@, max), res),
{
    let raster = lines.remaining_data();
    let mut data: Vec<u8> = Vec::new();
    let mut i: usize = 0;
    while i < raster.len()
        invariant
            lines.wf(),
            raster@ == old(lines)@,
            i <= raster@.len(),
            data@ == raster@.take(i as int).map_values(|b: u8| scale(b, max)),
            forall|j: int| 0 <= j < i ==> scale_fits(#[trigger] raster@[j], max),
        decreases raster@.len() - i,
    {
        match scale_sample(raster[i], max) {
            Some(v) => {
                data.push(v);
            },
            None => {
                assert(!scale_fits(raster@[i as int], max));
                return None;
            },
        }
        i = i + 1;
        assert(data@ =~= raster@.take(i as int).map_values(|b: u8| scale(b, max)));
    }
    assert(raster@.take(i as int) == raster@);
    Some(Ok(data))
}

/// Reads the word `line[start..end]` of a line of text samples: a number
/// from 0 to 255 is scaled and kept, anything else is an error, and a
/// number that cannot be scaled is a fault.
fn scaled_piece(
    data: &mut Vec<u8>,
    fault: &mut bool,
    error: &mut bool,
    line: &Vec<u8>,
    start: usize,
    end: usize,
    max: u8,
)
    requires
        start <= end <= line@.len(),
    ensures
        *final(error) == (*old(error) || decimal_upto(line@.subrange(start as int, end as int), 255) is None),
        *final(fault) == (*old(fault) || !word_scales(line@.subrange(start as int, end as int), max)),
        !*final(error) && !*final(fault) ==> final(data)@ == old(data)@.push(
            scale(decimal_upto(line@.subrange(start as int, end as int), 255).unwrap() as u8, max),
        ),
{
    match parse_decimal(line.as_slice(), start, end, 255) {
        Some(x) => match scale_sample(x as u8, max) {
            Some(v) => {
                data.push(v);
            },
            None => {
                *fault = true;
            },
        },
        None => {
            *error = true;
        },
    }
}

/// Some word fails to scale.
pub open spec fn some_word_faults(words: Seq<Seq<u8>>, max: u8) -> bool {
    exists|k: int| 0 <= k < words.len() && !word_scales(#[trigger] words[k], max)
}

proof fn lemma_faults_push(ws: Seq<Seq<u8>>, t: Seq<u8>, max: u8)
    ensures
        some_word_faults(ws.push(t), max) == (some_word_faults(ws, max) || !word_scales(t, max)),
{
    if some_word_faults(ws, max) {
        let k = choose|k: int| 0 <= k < ws.len() && !word_scales(#[trigger] ws[k], max);
        assert(ws.push(t)[k] == ws[k]);
    }
    if !word_scales(t, max) {
        assert(ws.push(t)[ws.len() as int] == t);
    }
    if some_word_faults(ws.push(t), max) {
        let k = choose|k: int| 0 <= k < ws.push(t).len() && !word_scales(#[trigger] ws.push(t)[k], max);
        if k < ws.len() {
            assert(ws.push(t)[k] == ws[k]);
        }
    }
}

proof fn lemma_split_step(line: Seq<u8>, i: int)
    requires
        0 <= i < line.len(),
    ensures
        split_blanks(line.take(i + 1)) == (if is_blank(line[i]) {
            split_blanks(line.take(i)).push(Seq::empty())
        } else {
            let prev = split_blanks(line.take(i));
            prev.update(prev.len() - 1, prev.last().push(line[i]))
        }),
{
    assert(line.take(i + 1).drop_last() == line.take(i));
}

proof fn lemma_drop_empty_push(ws: Seq<Seq<u8>>, t: Seq<u8>)
    ensures
        drop_empty(ws.push(t)) == (if t.len() == 0 {
            drop_empty(ws)
        } else {
            drop_empty(ws).push(t)
        }),
{
    assert(ws.push(t).drop_last() == ws);
}

/// One line of text samples: each word scaled, or a fault, or an error.
fn read_sample_line(data: &mut Vec<u8>, line: &Vec<u8>, max: u8) -> (res: (bool, bool))
    ensures
        res.0 == some_word_faults(sample_words(line@), max),
        res.1 == !crate::bloc::pieces_ok(sample_words(line@)),
        !res.0 && !res.1 ==> final(data)@ == old(data)@ + scaled_words(sample_words(line@), max),
{
    let ghost base = data@;
    let mut fault = false;
    let mut error = false;
    let mut start: usize = 0;
    let mut i: usize = 0;
    proof {
        assert(line@.take(0) == Seq::<u8>::empty());
        assert(split_blanks(Seq::<u8>::empty()).drop_last() =~= Seq::<Seq<u8>>::empty());
    }
    while i < line.len()
        invariant
            start <= i <= line@.len(),
            ({
                let pieces = split_blanks(line@.take(i as int));
                &&& pieces.len() >= 1
                &&& pieces.last() == line@.subrange(start as int, i as int)
                &&& fault == some_word_faults(drop_empty(pieces.drop_last()), max)
                &&& error == !crate::bloc::pieces_ok(drop_empty(pieces.drop_last()))
                &&& !error && !fault ==> data@ == base + scaled_words(
                    drop_empty(pieces.drop_last()),
                    max,
                )
            }),
        decreases line@.len() - i,
    {
        let ghost pieces = split_blanks(line@.take(i as int));
        proof {
            lemma_split_step(line@, i as int);
        }
        if line[i] == 0x20 || line[i] == 0x09 || line[i] == 0x0D {
            let ghost tok = line@.subrange(start as int, i as int);
            let ghost prev = drop_empty(pieces.drop_last());
            proof {
                assert(pieces.drop_last().push(tok) == pieces);
                lemma_drop_empty_push(pieces.drop_last(), tok);
                crate::bloc::lemma_pieces_ok_push(prev, tok);
                lemma_faults_push(prev, tok, max);
            }
            if start < i {
                scaled_piece(data, &mut fault, &mut error, line, start, i, max);
                proof {
                    if !error && !fault {
                        assert(scaled_words(prev.push(tok), max) =~= scaled_words(prev, max).push(
                            scale(decimal_upto(tok, 255).unwrap() as u8, max),
                        ));
                    }
                }
            }
            proof {
                let next = split_blanks(line@.take(i + 1));
                assert(next == pieces.push(Seq::empty()));
                assert(next.drop_last() == pieces);
                assert(line@.subrange(i + 1, i + 1) == Seq::<u8>::empty());
            }
            start = i + 1;
        } else {
            proof {
                let next = split_blanks(line@.take(i + 1));
                assert(next.drop_last() =~= pieces.drop_last());
                assert(next.last() =~= line@.subrange(start as int, i + 1));
            }
        }
        i = i + 1;
    }
    proof {
        assert(line@.take(i as int) == line@);
    }
    let ghost pieces = split_blanks(line@);
    let ghost tok = line@.subrange(start as int, i as int);
    let ghost prev = drop_empty(pieces.drop_last());
    proof {
        assert(pieces.drop_last().push(tok) == pieces);
        lemma_drop_empty_push(pieces.drop_last(), tok);
        crate::bloc::lemma_pieces_ok_push(prev, tok);
        lemma_faults_push(prev, tok, max);
    }
    if start < i {
        scaled_piece(data, &mut fault, &mut error, line, start, i, max);
        proof {
            if !error && !fault {
                assert(scaled_words(prev.push(tok), max) =~= scaled_words(prev, max).push(
                    scale(decimal_upto(tok, 255).unwrap() as u8, max),
                ));
            }
        }
    }
    (fault, error)
}

/// The outcome of the lines after some samples were read already.
pub open spec fn after(read: Seq<u8>, s: Samples) -> Samples {
    match s {
        Samples::Got(d) => Samples::Got(read + d),
        other => other,
    }
}

/// The samples of text formats, line by line up to the first empty line.
pub fn read_text_samples(lines: &mut FileReader, max: u8) -> (res: Option<Result<Vec<u8>, JpegError>>)
    requires
        old(lines).wf(),
    ensures
        final(lines).wf(),
        samples_result(text_samples(old(lines)@, max), res),
{
    let ghost r0 = lines@;
    let mut data: Vec<u8> = Vec::new();
    assert(after(data@, text_samples(r0, max)) == text_samples(r0, max)) by {
        if let Samples::Got(d) = text_samples(r0, max) {
            assert(Seq::<u8>::empty() + d == d);
        }
    }
    loop
        invariant
            lines.wf(),
            r0 == old(lines)@,
            text_samples(r0, max) == after(data@, text_samples(lines@, max)),
        decreases lines@.len(),
    {
        let ghost cur = lines@;
        proof {
            lemma_comment_line_shorter(cur);
        }
        let new_line = match parse_pixmap_comment_line(lines) {
            None => {
                return None;
            },
            Some(Err(e)) => {
                return Some(Err(e));
            },
            Some(Ok(l)) => l,
        };
        if new_line.len() == 0 {
            assert(data@ + Seq::<u8>::empty() == data@);
            return Some(Ok(data));
        }
        let ghost before = data@;
        let (fault, error) = read_sample_line(&mut data, &new_line, max);
        if fault {
            return None;
        }
        if error {
            return Some(Err(JpegError::FormatError));
        }
        proof {
            let words = sample_words(new_line@);
            match text_samples(lines@, max) {
                Samples::Got(d) => {
                    assert(before + (scaled_words(words, max) + d) == data@ + d);
                },
                _ => {},
            }
        }
    }
}

/// The samples of a raw bitmap (P4) of `sizex` by `sizey` pixels: row
/// after row, each row starting on a byte of its own, eight pixels a byte
/// with the most significant bit first; a set bit is black (0), a clear one
/// white (255). Reading stops where the raster ends.
pub fn read_pbm_bytes(lines: &mut FileReader, sizex: u16, sizey: u16) -> (res: Vec<u8>)
    requires
        old(lines).wf(),
    ensures
        final(lines).wf(),
        res@ == pbm_bytes(old(lines)@, sizex as nat, sizey as nat),
{
    let raster = lines.remaining_data();
    let ghost r0 = raster@;
    let ghost w = sizex as nat;
    let ghost n = (sizex as nat) * (sizey as nat);
    let width: usize = sizex as usize;
    let height: usize = sizey as usize;
    let row_bytes: usize = (width + 7) / 8;
    let mut data: Vec<u8> = Vec::new();
    let mut row: usize = 0;
    while row < height
        invariant
            lines.wf(),
            raster@ == r0,
            r0 == old(lines)@,
            width == w,
            w == sizex,
            height == sizey,
            n == w * height,
            row_bytes == pbm_row_bytes(w),
            row <= height,
            width <= 65535,
            data@.len() == row * w,
            data@ == Seq::new((row * w) as nat, |k: int| pbm_pixel(r0, w, k as nat)),
            pbm_count(r0, w, n, 0) == pbm_count(r0, w, n, (row * w) as nat),
        decreases height - row,
    {
        let mut col: usize = 0;
        while col < width
            invariant
                lines.wf(),
                raster@ == r0,
                r0 == old(lines)@,
                width == w,
                w == sizex,
                height == sizey,
                n == w * height,
                row_bytes == pbm_row_bytes(w),
                row < height,
                col <= width,
                width <= 65535,
                data@.len() == row * w + col,
                data@ == Seq::new((row * w + col) as nat, |k: int| pbm_pixel(r0, w, k as nat)),
                pbm_count(r0, w, n, 0) == pbm_count(r0, w, n, (row * w + col) as nat),
            decreases width - col,
        {
            let ghost k: nat = (row * w + col) as nat;
            proof {
                vstd::arithmetic::div_mod::lemma_fundamental_div_mod_converse(
                    k as int,
                    w as int,
                    row as int,
                    col as int,
                );
                assert(k < n) by (nonlinear_arith)
                    requires
                        k == row * w + col,
                        col < w,
                        row < height,
                        n == w * height,
                ;
                assert(row_bytes <= 8192);
                assert(row * row_bytes + col / 8 <= 65535 * 8192 + 8191) by (nonlinear_arith)
                    requires
                        row < 65536,
                        row_bytes <= 8192,
                        col < 65536,
                ;
            }
            let idx: usize = row * row_bytes + col / 8;
            assert(idx == pbm_byte_index(w, k));
            if idx >= raster.len() {
                assert(pbm_count(r0, w, n, k) == k);
                assert(data@ =~= pbm_bytes(r0, w, sizey as nat));
                return data;
            }
            let bits = msb_bits(raster[idx] as u16, 8);
            proof {
                lemma_low_bits_len(raster@[idx as int] as nat, 8);
            }
            let pixel: u8 = if bits[col % 8] {
                0
            } else {
                255
            };
            assert(pixel == pbm_pixel(r0, w, k));
            data.push(pixel);
            col = col + 1;
            assert(data@ =~= Seq::new((row * w + col) as nat, |j: int| pbm_pixel(r0, w, j as nat)));
        }
        proof {
            assert((row + 1) * w == row * w + w) by (nonlinear_arith);
        }
        row = row + 1;
    }
    proof {
        assert(row * w == n) by (nonlinear_arith)
            requires
                row == height,
                n == w * height,
        ;
        assert(pbm_count(r0, w, n, n) == n);
    }
    assert(data@ =~= pbm_bytes(r0, w, sizey as nat));
    data
}

/// A line that is not a plain bitmap line stays one however it goes on.
proof fn lemma_pbm_line_none(line: Seq<u8>, i: int)
    requires
        0 <= i <= line.len(),
        pbm_line(line.take(i)) is None,
    ensures
        pbm_line(line) is None,
    decreases line.len() - i,
{
    if i == line.len() {
        assert(line.take(i) == line);
    } else {
        assert(line.take(i + 1).drop_last() == line.take(i));
        lemma_pbm_line_none(line, i + 1);
    }
}

/// One line of a plain bitmap: its pixels appended; `false` where the line
/// holds a character other than a blank, `0` or `1`.
fn read_pbm_line(data: &mut Vec<u8>, line: &Vec<u8>) -> (ok: bool)
    ensures
        ok == (pbm_line(line@) is Some),
        ok ==> final(data)@ == old(data)@ + pbm_line(line@).unwrap(),
{
    let ghost base = data@;
    let mut i: usize = 0;
    assert(line@.take(0) =~= Seq::<u8>::empty());
    assert(base + Seq::<u8>::empty() == base);
    while i < line.len()
        invariant
            i <= line@.len(),
            pbm_line(line@.take(i as int)) is Some,
            data@ == base + pbm_line(line@.take(i as int)).unwrap(),
        decreases line@.len() - i,
    {
        let ghost p = pbm_line(line@.take(i as int)).unwrap();
        assert(line@.take(i + 1).drop_last() == line@.take(i as int));
        let b = line[i];
        if b == 0x20 || b == 0x09 || b == 0x0D {
        } else if b == 0x30 {
            data.push(255);
            assert(base + p.push(255u8) == (base + p).push(255u8));
        } else if b == 0x31 {
            data.push(0);
            assert(base + p.push(0u8) == (base + p).push(0u8));
        } else {
            proof {
                lemma_pbm_line_none(line@, i + 1);
            }
            return false;
        }
        i = i + 1;
    }
    assert(line@.take(i as int) == line@);
    true
}

/// The samples of a plain bitmap (P1), line by line up to the first empty
/// line.
pub fn read_pbm_text(lines: &mut FileReader) -> (res: Option<Result<Vec<u8>, JpegError>>)
    requires
        old(lines).wf(),
    ensures
        final(lines).wf(),
        samples_result(pbm_text_samples(old(lines)@), res),
{
    let ghost r0 = lines@;
    let mut data: Vec<u8> = Vec::new();
    assert(after(data@, pbm_text_samples(r0)) == pbm_text_samples(r0)) by {
        if let Samples::Got(d) = pbm_text_samples(r0) {
            assert(Seq::<u8>::empty() + d == d);
        }
    }
    loop
        invariant
            lines.wf(),
            r0 == old(lines)@,
            pbm_text_samples(r0) == after(data@, pbm_text_samples(lines@)),
        decreases lines@.len(),
    {
        let ghost cur = lines@;
        proof {
            lemma_comment_line_shorter(cur);
        }
        let new_line = match parse_pixmap_comment_line(lines) {
            None => {
                return None;
            },
            Some(Err(e)) => {
                return Some(Err(e));
            },
            Some(Ok(l)) => l,
        };
        if new_line.len() == 0 {
            assert(data@ + Seq::<u8>::empty() == data@);
            return Some(Ok(data));
        }
        let ghost before = data@;
        if !read_pbm_line(&mut data, &new_line) {
            return Some(Err(JpegError::FormatError));
        }
        proof {
            let p = pbm_line(new_line@).unwrap();
            match pbm_text_samples(lines@) {
                Samples::Got(d) => {
                    assert(before + (p + d) == data@ + d);
                },
                _ => {},
            }
        }
    }
}

/// What reading a pixmap gives: the frame and its samples.
pub open spec fn pixmap_result(o: PixmapOutcome, res: Option<Result<(JpegFormat, Vec<u8>), JpegError>>) -> bool {
    match o {
        PixmapOutcome::Fault => res is None,
        PixmapOutcome::Fail(e) => res matches Some(Err(e2)) && e2 == e,
        PixmapOutcome::Parsed { sizex, sizey, comp, data } => res matches Some(Ok((f, d))) && d@
            == data && fresh_frame(f, sizex, sizey, comp),
    }
}

/// The frame `JpegFormat::new(sizex, sizey, comp, 1, 1)` gives.
pub open spec fn fresh_frame(f: JpegFormat, sizex: u16, sizey: u16, comp: u8) -> bool {
    &&& f.sizex == sizex
    &&& f.sizey == sizey
    &&& f.comp == comp
    &&& f.x_sampling == 1
    &&& f.y_sampling == 1
    &&& f.huff_deep_ac@.len() == 0
    &&& f.huff_symbol_ac@.len() == 0
    &&& f.huff_deep_dc@.len() == 0
    &&& f.huff_symbol_dc@.len() == 0
    &&& f.data@.len() == 0
    &&& f.quant_table@.len() == 0
    &&& f.bsizex == (sizex + 7) / 8
    &&& f.bsizey == (sizey + 7) / 8
}

/// Reads a portable bitmap, graymap or pixmap; `None` where reading cannot
/// go on.
fn read_pixmap(lines: &mut FileReader) -> (res: Option<Result<(JpegFormat, Vec<u8>), JpegError>>)
    requires
        old(lines).wf(),
    ensures
        final(lines).wf(),
        pixmap_result(pixmap_outcome(old(lines)@), res),
{
    let (max, isbyte, comp, sizex, sizey, bitmap) = match read_header(lines) {
        None => {
            return None;
        },
        Some(Err(e)) => {
            return Some(Err(e));
        },
        Some(Ok(h)) => h,
    };
    let samples = if bitmap {
        if isbyte {
            Some(Ok(read_pbm_bytes(lines, sizex, sizey)))
        } else {
            read_pbm_text(lines)
        }
    } else if isbyte {
        read_byte_samples(lines, max)
    } else {
        read_text_samples(lines, max)
    };
    let data = match samples {
        None => {
            return None;
        },
        Some(Err(e)) => {
            return Some(Err(e));
        },
        Some(Ok(d)) => d,
    };
    let file_format = JpegFormat::new(sizex, sizey, comp, 1, 1);
    Some(Ok((file_format, data)))
}

/// The file can be read without stopping the program.
pub open spec fn pixmap_fits(r: Seq<u8>) -> bool {
    !(pixmap_outcome(r) is Fault)
}

/// Reads a portable bitmap, graymap or pixmap: the header (magic number,
/// width, height and largest value, comments starting with `#` skipped),
/// then the samples scaled to 0..=255 (the pixels of a bitmap black, 0, or
/// white, 255), and the frame for them.
pub fn parse_pixmap(lines: &mut FileReader) -> (res: Result<(JpegFormat, Vec<u8>), JpegError>)
    requires
        old(lines).wf(),
        pixmap_fits(old(lines)@),
    ensures
        final(lines).wf(),
        pixmap_result(pixmap_outcome(old(lines)@), Some(res)),
{
    match read_pixmap(lines) {
        Some(r) => r,
        None => {
            assert(false);
            Err(JpegError::FormatError)
        },
    }
}

/// Reads an image file of the given format.
pub fn parse_file(img_format: ImageFormat, lines: &mut FileReader) -> (res: Result<
    (JpegFormat, Vec<u8>),
    JpegError,
>)
    requires
        old(lines).wf(),
        pixmap_fits(old(lines)@),
    ensures
        final(lines).wf(),
        pixmap_result(pixmap_outcome(old(lines)@), Some(res)),
{
    match img_format {
        ImageFormat::PixMap => parse_pixmap(lines),
    }
}

/// Whether [`parse_file`] can read the rest of this file.
pub fn check_file(img_format: ImageFormat, lines: &FileReader) -> (res: bool)
    requires
        lines.wf(),
    ensures
        res == pixmap_fits(lines@),
{
    let mut copy = lines.duplicate();
    match img_format {
        ImageFormat::PixMap => match read_pixmap(&mut copy) {
            Some(_) => true,
            None => false,
        },
    }
}
} // verus!
