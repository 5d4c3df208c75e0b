use vstd::prelude::*;
use crate::error::Error;
use crate::huffman_tree::{canonical_tree, fits, table_view, tree_table, HuffmanTable, HuffmanTree};
use crate::marker::{next_marker, Marker};
use crate::util::{be16, read_bytes, read_u16_be, read_u8, ByteReader};

verus! {

/// The encoding process that a start-of-frame marker announces.
#[derive(Debug, Clone, Copy, PartialEq, Eq)]
pub enum EncodingProcess {
    Unknown,
    BaselineDct,
    ExtendedSequentialDctHc,
    ProgressiveDctHc,
    LosslessHc,
    ExtendedSequentialDctAc,
    ProgressiveDctAc,
    LosslessAc,
}

/// One component of a frame.
#[derive(Debug, Clone, Copy, PartialEq, Eq)]
pub struct FrameComponentHeader {
    pub id: u8,
    pub horizontal_sampling_factor: u8,
    pub vertical_sampling_factor: u8,
    pub quantization_table_selector: u8,
}

/// The geometry of an image.
#[derive(Debug, Clone, Copy, PartialEq, Eq)]
pub struct FrameHeader {
    pub encoding_process: EncodingProcess,
    pub precision: u8,
    pub max_lines: u16,
    pub max_samples_per_line: u16,
    pub components_count: u8,
    pub component_headers: [Option<FrameComponentHeader>; 4],
}

/// One component of a scan, with its entropy-coding table selectors.
#[derive(Debug, Clone, Copy, PartialEq, Eq)]
pub struct ScanComponentHeader {
    pub scan_component_selector: u8,
    pub dc_entropy_coding_table_selector: u8,
    pub ac_entropy_coding_table_selector: u8,
}

#[derive(Debug, Clone, Copy, PartialEq, Eq)]
pub struct ScanHeader {
    pub components_count: u8,
    pub component_headers: [Option<ScanComponentHeader>; 4],
}

/// A scan of the image; its entropy-coded content is not decoded.
#[derive(Debug, Clone, Copy, PartialEq, Eq)]
pub struct Scan {
    pub scan_header: ScanHeader,
}

/// 64 coefficients of 8 bits.
pub type QuantizationTable = Vec<u8>;

pub open spec fn high_nibble(b: u8) -> u8 {
    (b / 16) as u8
}

pub open spec fn low_nibble(b: u8) -> u8 {
    (b % 16) as u8
}

fn split_nibbles(b: u8) -> (r: (u8, u8))
    ensures
        r.0 == high_nibble(b),
        r.1 == low_nibble(b),
{
    let hi = (b & 0xf0) >> 4;
    let lo = b & 0x0f;
    assert(((b & 0xf0) >> 4) == b / 16 && (b & 0x0f) == b % 16) by (bit_vector);
    (hi, lo)
}

/// The encoding process for a start-of-frame sub-code.
pub open spec fn process_of(n: u8) -> EncodingProcess {
    if n == 0 {
        EncodingProcess::BaselineDct
    } else if n == 1 {
        EncodingProcess::ExtendedSequentialDctHc
    } else if n == 2 {
        EncodingProcess::ProgressiveDctHc
    } else if n == 3 {
        EncodingProcess::LosslessHc
    } else if n == 9 {
        EncodingProcess::ExtendedSequentialDctAc
    } else if n == 10 {
        EncodingProcess::ProgressiveDctAc
    } else if n == 11 {
        EncodingProcess::LosslessAc
    } else {
        EncodingProcess::Unknown
    }
}

/// The component described by the three bytes at `p`.
pub open spec fn frame_component_at(d: Seq<u8>, p: int) -> FrameComponentHeader {
    FrameComponentHeader {
        id: d[p],
        horizontal_sampling_factor: high_nibble(d[p + 1]),
        vertical_sampling_factor: low_nibble(d[p + 1]),
        quantization_table_selector: d[p + 2],
    }
}

/// A frame record at `p` is complete and describes an 8-bit, 3-component frame
/// with at least one line.
pub open spec fn frame_ok(d: Seq<u8>, p: int) -> bool {
    &&& p + 15 <= d.len()
    &&& d[p] == 8
    &&& be16(d[p + 1], d[p + 2]) != 0
    &&& d[p + 5] == 3
}

/// The frame header that the record at `p` gives for sub-code `n`.
pub open spec fn frame_at(d: Seq<u8>, p: int, n: u8) -> FrameHeader {
    FrameHeader {
        encoding_process: process_of(n),
        precision: d[p],
        max_lines: be16(d[p + 1], d[p + 2]) as u16,
        max_samples_per_line: be16(d[p + 3], d[p + 4]) as u16,
        components_count: d[p + 5],
        component_headers: [
            Some(frame_component_at(d, p + 6)),
            Some(frame_component_at(d, p + 9)),
            Some(frame_component_at(d, p + 12)),
            None,
        ],
    }
}

/// A frame record at `p` that is not accepted fails for want of bytes: the source ends
/// before a field that the checks so far let through.
pub open spec fn frame_short(d: Seq<u8>, p: int) -> bool {
    p >= d.len() || (d[p] == 8 && (p + 3 > d.len() || (be16(d[p + 1], d[p + 2]) != 0 && (p + 6
        > d.len() || (d[p + 5] == 3 && p + 15 > d.len())))))
}

/// The scan component described by the two bytes at `p`.
pub open spec fn scan_component_at(d: Seq<u8>, p: int) -> ScanComponentHeader {
    ScanComponentHeader {
        scan_component_selector: d[p],
        dc_entropy_coding_table_selector: high_nibble(d[p + 1]),
        ac_entropy_coding_table_selector: low_nibble(d[p + 1]),
    }
}

/// A scan record at `p` has 1 to 3 components and is complete, with its 3 trailing bytes.
pub open spec fn scan_ok(d: Seq<u8>, p: int) -> bool {
    &&& p < d.len()
    &&& 0 < d[p] < 4
    &&& p + 1 + 2 * d[p] + 3 <= d.len()
}

/// A scan record at `p` that is not accepted fails for want of bytes.
pub open spec fn scan_short(d: Seq<u8>, p: int) -> bool {
    p >= d.len() || (0 < d[p] < 4 && p + 1 + 2 * d[p] + 3 > d.len())
}

/// The length in bytes of the scan record at `p`.
pub open spec fn scan_len(d: Seq<u8>, p: int) -> int {
    1 + 2 * d[p] + 3
}

/// The scan header that the record at `p` gives.
pub open spec fn scan_at(d: Seq<u8>, p: int) -> ScanHeader {
    ScanHeader {
        components_count: d[p],
        component_headers: [
            Some(scan_component_at(d, p + 1)),
            if d[p] >= 2 {
                Some(scan_component_at(d, p + 3))
            } else {
                None
            },
            if d[p] >= 3 {
                Some(scan_component_at(d, p + 5))
            } else {
                None
            },
            None,
        ],
    }
}

/// How many 65-byte records a quantization segment of declared length `size` holds.
pub open spec fn quant_count(size: u16) -> int {
    (size - 2 + 64) / 65
}

/// Among the quantization records `k..n` at `p`, the first that cannot be read
/// declares a precision other than 8 bits (rather than running out of bytes).
pub open spec fn quant_unsupported(d: Seq<u8>, p: int, k: int, n: int) -> bool
    decreases n - k,
{
    if k >= n {
        false
    } else if p + 65 * k >= d.len() {
        false
    } else if high_nibble(d[p + 65 * k]) != 0 {
        true
    } else if p + 65 * k + 65 > d.len() {
        false
    } else {
        quant_unsupported(d, p, k + 1, n)
    }
}

/// The records of a quantization segment at `p` are all present and all of 8-bit precision.
pub open spec fn quant_ok(d: Seq<u8>, p: int, size: u16) -> bool {
    &&& size >= 2
    &&& p + 65 * quant_count(size) <= d.len()
    &&& forall|k: int| 0 <= k < quant_count(size) ==> #[trigger] high_nibble(d[p + 65 * k]) == 0
}

/// The sum of the first `n` symbol counts in `c`.
pub open spec fn count_sum(c: Seq<u8>, n: int) -> nat
    decreases n,
{
    if n <= 0 {
        0
    } else {
        count_sum(c, n - 1) + c[n - 1] as nat
    }
}

/// The 16 symbol counts of the Huffman record at `p`.
pub open spec fn counts_at(d: Seq<u8>, p: int) -> Seq<u8> {
    d.subrange(p + 1, p + 17)
}

/// The length in bytes of the Huffman record at `p`: an info byte, 16 counts, the symbols.
pub open spec fn huffman_record_len(d: Seq<u8>, p: int) -> int {
    17 + count_sum(counts_at(d, p), 16) as int
}

/// The Huffman record at `p` is complete.
pub open spec fn huffman_record_ok(d: Seq<u8>, p: int) -> bool {
    p + 17 <= d.len() && p + huffman_record_len(d, p) <= d.len()
}

/// The symbols of length `l + 1` in the Huffman record at `p`.
pub open spec fn huffman_slot_at(d: Seq<u8>, p: int, l: int) -> Seq<u8> {
    d.subrange(p + 17 + count_sum(counts_at(d, p), l), p + 17 + count_sum(counts_at(d, p), l + 1))
}

/// What the Huffman record at `p` gives: class, destination and the symbols by length.
pub open spec fn huffman_record_matches(d: Seq<u8>, p: int, rec: (u8, u8, HuffmanTable)) -> bool {
    &&& rec.0 == high_nibble(d[p])
    &&& rec.1 == low_nibble(d[p])
    &&& forall|l: int| 0 <= l < 16 ==> (#[trigger] rec.2@[l])@ == huffman_slot_at(d, p, l)
}

/// Where the `k`-th Huffman record of a segment whose first record is at `p` starts.
pub open spec fn huffman_record_start(d: Seq<u8>, p: int, k: int) -> int
    decreases k,
{
    if k <= 0 {
        p
    } else {
        let s = huffman_record_start(d, p, k - 1);
        s + huffman_record_len(d, s)
    }
}

/// Every Huffman record that starts before `end`, from `s` on, is complete.
pub open spec fn huffman_segment_ok(d: Seq<u8>, s: int, end: int) -> bool
    decreases end - s,
{
    if s >= end || huffman_record_len(d, s) <= 0 {
        true
    } else if s + huffman_record_len(d, s) >= end {
        huffman_record_ok(d, s)
    } else {
        huffman_record_ok(d, s) && huffman_segment_ok(d, s + huffman_record_len(d, s), end)
    }
}

proof fn lemma_count_sum_mono(c: Seq<u8>, a: int, b: int)
    requires
        0 <= a <= b <= c.len(),
    ensures
        count_sum(c, a) <= count_sum(c, b),
    decreases b - a,
{
    if a < b {
        lemma_count_sum_mono(c, a, b - 1);
    }
}

/// What a decode gathers: the frame header, the scans, and the tables by destination.
pub struct Image {
    pub frame_header: Option<FrameHeader>,
    pub scans: Vec<Scan>,
    pub quantization_tables: [Option<QuantizationTable>; 4],
    pub ac_huffman_tables: [Option<HuffmanTree>; 4],
    pub dc_huffman_tables: [Option<HuffmanTree>; 4],
}

/// What every decoded image satisfies: an 8-bit frame of 3 components if any,
/// quantization tables of 64 entries, and canonical decode trees.
pub open spec fn image_ok(img: &Image) -> bool {
    &&& img.frame_header matches Some(fh) ==> fh.precision == 8 && fh.components_count == 3
        && fh.max_lines != 0
    &&& forall|i: int|
        0 <= i < 4 ==> (#[trigger] img.quantization_tables@[i] matches Some(t) ==> t@.len() == 64)
    &&& forall|i: int| 0 <= i < 4 ==> (#[trigger] img.dc_huffman_tables@[i] matches Some(t) ==> canonical_tree(t@))
    &&& forall|i: int| 0 <= i < 4 ==> (#[trigger] img.ac_huffman_tables@[i] matches Some(t) ==> canonical_tree(t@))
    &&& forall|i: int|
        0 <= i < img.scans@.len() ==> 0 < (#[trigger] img.scans@[i]).scan_header.components_count < 4
}

/// What a decode has gathered, as values: the frame header, the scan headers, and by
/// destination the quantization tables and the symbols of the DC and AC Huffman tables.
pub type ImageState = (
    Option<FrameHeader>,
    Seq<ScanHeader>,
    Seq<Option<Seq<u8>>>,
    Seq<Option<Seq<Seq<u8>>>>,
    Seq<Option<Seq<Seq<u8>>>>,
);

/// The state before any segment.
pub open spec fn initial_state() -> ImageState {
    (
        None,
        Seq::empty(),
        Seq::new(4, |i: int| None),
        Seq::new(4, |i: int| None),
        Seq::new(4, |i: int| None),
    )
}


pub open spec fn tree_slot(o: Option<HuffmanTree>) -> Option<Seq<Seq<u8>>> {
    match o {
        Some(t) => Some(tree_table(t@)),
        None => None,
    }
}

pub open spec fn quant_slot(o: Option<QuantizationTable>) -> Option<Seq<u8>> {
    match o {
        Some(t) => Some(t@),
        None => None,
    }
}

/// An image as values.
pub open spec fn image_state(img: &Image) -> ImageState {
    (
        img.frame_header,
        img.scans@.map_values(|s: Scan| s.scan_header),
        img.quantization_tables@.map_values(|o: Option<QuantizationTable>| quant_slot(o)),
        img.dc_huffman_tables@.map_values(|o: Option<HuffmanTree>| tree_slot(o)),
        img.ac_huffman_tables@.map_values(|o: Option<HuffmanTree>| tree_slot(o)),
    )
}

/// Every one of the first `n` quantization records at `q` names destination 0 to 3.
pub open spec fn quant_ids_ok(d: Seq<u8>, q: int, n: int) -> bool {
    forall|k: int| 0 <= k < n ==> #[trigger] low_nibble(d[q + 65 * k]) < 4
}

/// `st` with the first `n` quantization records at `q` stored, in order.
pub open spec fn apply_quant(st: ImageState, d: Seq<u8>, q: int, n: int) -> ImageState
    decreases n,
{
    if n <= 0 {
        st
    } else {
        let prev = apply_quant(st, d, q, n - 1);
        let b = q + 65 * (n - 1);
        (
            prev.0,
            prev.1,
            prev.2.update(low_nibble(d[b]) as int, Some(d.subrange(b + 1, b + 65))),
            prev.3,
            prev.4,
        )
    }
}

/// The symbols by length of the Huffman record at `s`.
pub open spec fn record_table(d: Seq<u8>, s: int) -> Seq<Seq<u8>> {
    Seq::new(16, |l: int| huffman_slot_at(d, s, l))
}

/// `st` with the Huffman record at `s` stored under its class and destination.
pub open spec fn apply_huffman_record(st: ImageState, d: Seq<u8>, s: int) -> ImageState {
    let id = low_nibble(d[s]) as int;
    if high_nibble(d[s]) == 0 {
        (st.0, st.1, st.2, st.3.update(id, Some(record_table(d, s))), st.4)
    } else {
        (st.0, st.1, st.2, st.3, st.4.update(id, Some(record_table(d, s))))
    }
}

/// Every Huffman record from `s` on that starts before `end` is complete, names
/// destination 0 to 3, and has code lengths that fit in 16 levels.
pub open spec fn huffman_segment_valid(d: Seq<u8>, s: int, end: int) -> bool
    decreases end - s,
{
    if s >= end {
        true
    } else {
        &&& huffman_record_ok(d, s)
        &&& low_nibble(d[s]) < 4
        &&& fits(record_table(d, s))
        &&& s + huffman_record_len(d, s) < end ==> huffman_segment_valid(
            d,
            s + huffman_record_len(d, s),
            end,
        )
    }
}

/// `st` with every Huffman record from `s` on that starts before `end` stored, in order.
pub open spec fn apply_huffman(st: ImageState, d: Seq<u8>, s: int, end: int) -> ImageState
    decreases end - s,
{
    if s >= end {
        st
    } else if s + huffman_record_len(d, s) >= end {
        apply_huffman_record(st, d, s)
    } else {
        apply_huffman(apply_huffman_record(st, d, s), d, s + huffman_record_len(d, s), end)
    }
}

/// Where the Huffman records from `s` on that start before `end` stop.
pub open spec fn huffman_segment_end(d: Seq<u8>, s: int, end: int) -> int
    decreases end - s,
{
    if s >= end {
        s
    } else if s + huffman_record_len(d, s) >= end {
        s + huffman_record_len(d, s)
    } else {
        huffman_segment_end(d, s + huffman_record_len(d, s), end)
    }
}

/// Two errors are of the same kind.
pub open spec fn same_kind(a: Error, b: Error) -> bool {
    (a is Io && b is Io) || (a is Parse && b is Parse) || (a is Unsupported && b is Unsupported)
}

/// One step of a decode from `pos`: an error, `Ok((true, next, st))` at the end of
/// the image (`next` just after its marker), or `Ok((false, next, st))` to go on at `next`.
pub open spec fn step(d: Seq<u8>, pos: int, st: ImageState) -> Result<(bool, int, ImageState), Error> {
    let q = next_marker(d, pos).1;
    match next_marker(d, pos).0 {
        Err(_) => Err(Error::Parse("")),
        Ok(Marker::StartOfImage) => Ok((false, q, st)),
        Ok(Marker::ApplicationSegment(_, size)) => if size < 2 {
            Err(Error::Parse(""))
        } else if q + size - 2 > d.len() {
            Err(Error::Io)
        } else {
            Ok((false, q + size - 2, st))
        },
        Ok(Marker::Comment(size)) => if size < 2 {
            Err(Error::Parse(""))
        } else if q + size - 2 > d.len() {
            Err(Error::Io)
        } else {
            Ok((false, q + size - 2, st))
        },
        Ok(Marker::DefineQuantizationTable(size)) => if size < 2 {
            Err(Error::Parse(""))
        } else if !quant_ok(d, q, size) {
            if quant_unsupported(d, q, 0, quant_count(size)) {
                Err(Error::Unsupported(""))
            } else {
                Err(Error::Io)
            }
        } else if !quant_ids_ok(d, q, quant_count(size)) {
            Err(Error::Parse(""))
        } else {
            Ok((false, q + 65 * quant_count(size), apply_quant(st, d, q, quant_count(size))))
        },
        Ok(Marker::StartOfFrame(n, _)) => if frame_ok(d, q) {
            Ok((false, q + 15, (Some(frame_at(d, q, n)), st.1, st.2, st.3, st.4)))
        } else if frame_short(d, q) {
            Err(Error::Io)
        } else {
            Err(Error::Parse(""))
        },
        Ok(Marker::DefineHuffmanTable(size)) => if size < 2 {
            Err(Error::Parse(""))
        } else if !huffman_segment_ok(d, q, q + size - 2) {
            Err(Error::Io)
        } else if !huffman_segment_valid(d, q, q + size - 2) {
            Err(Error::Parse(""))
        } else {
            Ok(
                (
                    false,
                    huffman_segment_end(d, q, q + size - 2),
                    apply_huffman(st, d, q, q + size - 2),
                ),
            )
        },
        Ok(Marker::StartOfScan(_)) => if st.0 is None {
            Err(Error::Parse(""))
        } else if scan_ok(d, q) {
            Ok((false, q + scan_len(d, q), (st.0, st.1.push(scan_at(d, q)), st.2, st.3, st.4)))
        } else if scan_short(d, q) {
            Err(Error::Io)
        } else {
            Err(Error::Parse(""))
        },
        Ok(Marker::EndOfImage) => Ok((true, q, st)),
    }
}

/// The result of decoding `d` from `pos` with `st` gathered so far: the final state and
/// the position just after the end-of-image marker, or the error that stops the decode.
pub open spec fn run(d: Seq<u8>, pos: int, st: ImageState) -> Result<(ImageState, int), Error>
    decreases d.len() - pos,
{
    match step(d, pos, st) {
        Err(e) => Err(e),
        Ok((true, next, s2)) => Ok((s2, next)),
        Ok((false, next, s2)) => if pos < next <= d.len() {
            run(d, next, s2)
        } else {
            Err(Error::Parse(""))
        },
    }
}

/// The byte source that a decode reads.
pub struct Decoder {
    reader: ByteReader,
}

impl Decoder {
    pub closed spec fn reader_spec(&self) -> ByteReader {
        self.reader
    }

    /// How many bytes of the source have been consumed.
    pub fn position(&self) -> (r: usize)
        ensures
            r == self.reader_spec().pos(),
    {
        self.reader.position()
    }

    /// A decoder that reads `data` from its first byte.
    pub fn new(data: Vec<u8>) -> (r: Self)
        ensures
            r.reader_spec().bytes() == data@,
            r.reader_spec().pos() == 0,
    {
        Self { reader: ByteReader::new(data) }
    }

    /// Decodes the image. Only the header layer exists: on success the pixel
    /// data is empty.
    pub fn decode(&mut self) -> (r: Result<Vec<u8>, Error>)
        ensures
            final(self).reader_spec().bytes() == old(self).reader_spec().bytes(),
            r is Ok <==> run(
                old(self).reader_spec().bytes(),
                old(self).reader_spec().pos() as int,
                initial_state(),
            ) is Ok,
            r matches Ok(v) ==> v@.len() == 0 && final(self).reader_spec().pos() == run(
                old(self).reader_spec().bytes(),
                old(self).reader_spec().pos() as int,
                initial_state(),
            )->Ok_0.1,
            r matches Err(e) ==> same_kind(
                e,
                run(
                    old(self).reader_spec().bytes(),
                    old(self).reader_spec().pos() as int,
                    initial_state(),
                )->Err_0,
            ),
    {
        match self.parse() {
            Ok(_) => Ok(Vec::new()),
            Err(e) => Err(e),
        }
    }

    /// Reads segments up to the end-of-image marker and gathers what they define.
    ///
    /// Succeeds exactly when `run` does on the source from the current position,
    /// and then gives the image that `run` describes and stops just after the
    /// end-of-image marker. Otherwise it fails with the kind of error `run` gives:
    /// `Parse` where a marker cannot be read or is unknown, a start of scan comes
    /// before any frame, a table destination is not 0 to 3, a Huffman table does not
    /// fit in 16 levels, or a field breaks its record's rules; `Io` where a segment is
    /// cut short; `Unsupported` for a quantization table that is not 8-bit.
    pub fn parse(&mut self) -> (r: Result<Image, Error>)
        ensures
            final(self).reader_spec().bytes() == old(self).reader_spec().bytes(),
            r is Ok <==> run(
                old(self).reader_spec().bytes(),
                old(self).reader_spec().pos() as int,
                initial_state(),
            ) is Ok,
            r matches Ok(img) ==> image_ok(&img) && image_state(&img) == run(
                old(self).reader_spec().bytes(),
                old(self).reader_spec().pos() as int,
                initial_state(),
            )->Ok_0.0 && final(self).reader_spec().pos() == run(
                old(self).reader_spec().bytes(),
                old(self).reader_spec().pos() as int,
                initial_state(),
            )->Ok_0.1,
            r matches Err(e) ==> same_kind(
                e,
                run(
                    old(self).reader_spec().bytes(),
                    old(self).reader_spec().pos() as int,
                    initial_state(),
                )->Err_0,
            ),
    {
        let ghost d = self.reader.bytes();
        let ghost origin = self.reader.pos() as int;
        let mut image = Image {
            frame_header: None,
            scans: Vec::new(),
            quantization_tables: [None, None, None, None],
            dc_huffman_tables: [None, None, None, None],
            ac_huffman_tables: [None, None, None, None],
        };
        // The reader's position never passes the end of its bytes.
        let _ = self.reader.position();
        proof {
            assert(image_state(&image).1 =~= initial_state().1);
            assert(image_state(&image).2 =~= initial_state().2);
            assert(image_state(&image).3 =~= initial_state().3);
            assert(image_state(&image).4 =~= initial_state().4);
        }
        loop
            invariant
                self.reader.bytes() == d,
                d == old(self).reader.bytes(),
                origin == old(self).reader.pos(),
                self.reader.pos() <= d.len(),
                image_ok(&image),
                run(d, origin, initial_state()) == run(d, self.reader.pos() as int, image_state(&image)),
            decreases d.len() - self.reader.pos(),
        {
            // The reader's position never passes the end of its bytes.
            let _ = self.reader.position();
            let ghost before = self.reader.pos() as int;
            let ghost st = image_state(&image);
            let marker = match Marker::from_reader(&mut self.reader) {
                Ok(m) => m,
                Err(_) => {
                    return Err(Error::Parse("Non allowed marker found"));
                },
            };
            let ghost mark = self.reader.pos() as int;
            match marker {
                Marker::StartOfImage => {},
                Marker::ApplicationSegment(_, size) => {
                    if size < 2 {
                        return Err(Error::Parse("Segment length too small"));
                    }
                    match self.reader.skip((size - 2) as usize) {
                        Ok(()) => {},
                        Err(e) => {
                            return Err(e);
                        },
                    }
                },
                Marker::Comment(size) => {
                    match self.parse_comment(size) {
                        Ok(_) => {},
                        Err(e) => {
                            return Err(e);
                        },
                    }
                },
                Marker::DefineQuantizationTable(size) => {
                    let mut tables = match self.parse_quantization_table(size) {
                        Ok(t) => t,
                        Err(e) => {
                            return Err(e);
                        },
                    };
                    // The reader's position never passes the end of its bytes.
                    let _ = self.reader.position();
                    let ghost all = tables@;
                    let ghost n = all.len() as int;
                    assert(all.subrange(0, n) =~= all);
                    while tables.len() > 0
                        invariant
                            image_ok(&image),
                            self.reader.bytes() == d,
                            d == old(self).reader.bytes(),
                            origin == old(self).reader.pos(),
                            before < mark <= self.reader.pos() <= d.len(),
                            self.reader.pos() == mark + 65 * n,
                            marker == Marker::DefineQuantizationTable(size),
                            next_marker(d, before) == (Ok::<Marker, Error>(marker), mark),
                            run(d, origin, initial_state()) == run(d, before, st),
                            quant_ok(d, mark, size),
                            n == quant_count(size),
                            n == all.len(),
                            0 <= n - tables@.len() <= n,
                            tables@ == all.subrange(n - tables@.len(), n),
                            forall|k: int|
                                0 <= k < n ==> (#[trigger] all[k]).0 == low_nibble(d[mark + 65 * k])
                                    && all[k].1@ == d.subrange(mark + 65 * k + 1, mark + 65 * k + 65),
                            quant_ids_ok(d, mark, n - tables@.len()),
                            image_state(&image) == apply_quant(st, d, mark, n - tables@.len()),
                        decreases tables@.len(),
                    {
                        let ghost k = n - tables@.len();
                        let ghost prev = image_state(&image);
                        assert(tables@ == all.subrange(k, n));
                        assert(all.subrange(k, n)[0] == all[k]);
                        assert(tables@[0] == all[k]);
                        let ghost rest = tables@.subrange(1, tables@.len() as int);
                        let item = tables.remove(0);
                        assert(item == all[k]);
                        assert(tables@ =~= rest);
                        assert(tables@ =~= all.subrange(k + 1, n));
                        let (destination, table) = item;
                        assert(destination == low_nibble(d[mark + 65 * k]));
                        if destination >= 4 {
                            assert(!quant_ids_ok(d, mark, n));
                            return Err(Error::Parse("Table destination out of range"));
                        }
                        image.quantization_tables[destination as usize] = Some(table);
                        proof {
                            assert(tables@ =~= all.subrange(n - tables@.len(), n));
                            assert(image_state(&image).2 =~= prev.2.update(
                                destination as int,
                                Some(d.subrange(mark + 65 * k + 1, mark + 65 * k + 65)),
                            ));
                            assert(quant_ids_ok(d, mark, k + 1));
                        }
                    }
                    proof {
                        assert(step(d, before, st) == Ok::<(bool, int, ImageState), Error>(
                            (false, mark + 65 * n, image_state(&image)),
                        ));
                    }
                },
                Marker::StartOfFrame(n, size) => {
                    let frame_header = match self.parse_frame_header(n, size) {
                        Ok(f) => f,
                        Err(e) => {
                            return Err(e);
                        },
                    };
                    image.frame_header = Some(frame_header);
                },
                Marker::DefineHuffmanTable(size) => {
                    let mut tables = match self.parse_huffman_table(size) {
                        Ok(t) => t,
                        Err(e) => {
                            return Err(e);
                        },
                    };
                    // The reader's position never passes the end of its bytes.
                    let _ = self.reader.position();
                    let ghost all = tables@;
                    let ghost n = all.len() as int;
                    assert(all.subrange(0, n) =~= all);
                    let ghost end = mark + size - 2;
                    while tables.len() > 0
                        invariant
                            image_ok(&image),
                            self.reader.bytes() == d,
                            d == old(self).reader.bytes(),
                            origin == old(self).reader.pos(),
                            before < mark <= self.reader.pos() <= d.len(),
                            size >= 2,
                            end == mark + size - 2,
                            self.reader.pos() == huffman_record_start(d, mark, n),
                            huffman_record_start(d, mark, n) >= end,
                            marker == Marker::DefineHuffmanTable(size),
                            next_marker(d, before) == (Ok::<Marker, Error>(marker), mark),
                            run(d, origin, initial_state()) == run(d, before, st),
                            n == all.len(),
                            0 <= n - tables@.len() <= n,
                            tables@ == all.subrange(n - tables@.len(), n),
                            forall|k: int|
                                0 <= k < n ==> #[trigger] huffman_record_start(d, mark, k) < end,
                            forall|k: int|
                                0 <= k < n ==> huffman_record_matches(
                                    d,
                                    huffman_record_start(d, mark, k),
                                    #[trigger] all[k],
                                ),
                            huffman_segment_ok(d, huffman_record_start(d, mark, n - tables@.len()), end),
                            huffman_segment_ok(d, mark, end),
                            huffman_segment_valid(d, mark, end) == huffman_segment_valid(
                                d,
                                huffman_record_start(d, mark, n - tables@.len()),
                                end,
                            ),
                            huffman_segment_end(d, mark, end) == huffman_segment_end(
                                d,
                                huffman_record_start(d, mark, n - tables@.len()),
                                end,
                            ),
                            apply_huffman(st, d, mark, end) == apply_huffman(
                                image_state(&image),
                                d,
                                huffman_record_start(d, mark, n - tables@.len()),
                                end,
                            ),
                        decreases tables@.len(),
                    {
                        let ghost k = n - tables@.len();
                        let ghost sk = huffman_record_start(d, mark, k);
                        let ghost prev = image_state(&image);
                        assert(tables@ == all.subrange(k, n));
                        assert(all.subrange(k, n)[0] == all[k]);
                        assert(tables@[0] == all[k]);
                        let ghost rest = tables@.subrange(1, tables@.len() as int);
                        let item = tables.remove(0);
                        assert(item == all[k]);
                        assert(tables@ =~= rest);
                        assert(tables@ =~= all.subrange(k + 1, n));
                        let (class, destination, table) = item;
                        proof {
                            assert(table_view(&table) =~= record_table(d, sk));
                            assert(sk < end);
                            assert(huffman_record_matches(d, sk, all[k]));
                        }
                        if destination >= 4 {
                            return Err(Error::Parse("Table destination out of range"));
                        }
                        if !HuffmanTree::fits_table(&table) {
                            return Err(Error::Parse("Huffman table does not fit in 16 levels"));
                        }
                        let tree = HuffmanTree::new(&table);
                        proof {
                            assert(tree_table(tree@) =~= record_table(d, sk));
                        }
                        if class == 0 {
                            image.dc_huffman_tables[destination as usize] = Some(tree);
                            proof {
                                assert(image_state(&image).3 =~= prev.3.update(
                                    destination as int,
                                    Some(record_table(d, sk)),
                                ));
                            }
                        } else {
                            image.ac_huffman_tables[destination as usize] = Some(tree);
                            proof {
                                assert(image_state(&image).4 =~= prev.4.update(
                                    destination as int,
                                    Some(record_table(d, sk)),
                                ));
                            }
                        }
                        proof {
                            assert(tables@ =~= all.subrange(n - tables@.len(), n));
                            assert(huffman_record_start(d, mark, k + 1) == sk + huffman_record_len(
                                d,
                                sk,
                            ));
                            assert(image_state(&image) == apply_huffman_record(prev, d, sk));
                        }
                    }
                    proof {
                        assert(step(d, before, st) == Ok::<(bool, int, ImageState), Error>(
                            (false, huffman_record_start(d, mark, n), image_state(&image)),
                        ));
                    }
                },
                Marker::StartOfScan(size) => {
                    let scan_header = match &image.frame_header {
                        Some(frame_header) => match self.parse_scan_header(size, frame_header) {
                            Ok(s) => s,
                            Err(e) => {
                                return Err(e);
                            },
                        },
                        None => {
                            return Err(Error::Parse("Start of scan before any frame"));
                        },
                    };
                    let ghost prev = image_state(&image);
                    image.scans.push(Scan { scan_header });
                    proof {
                        assert(image_state(&image).1 =~= prev.1.push(scan_header));
                    }
                    self.decode_scan();
                },
                Marker::EndOfImage => {
                    return Ok(image);
                },
            }
            // The reader's position never passes the end of its bytes.
            let _ = self.reader.position();
        }
    }

    /// Reads the bytes of a comment segment of declared length `size`.
    fn parse_comment(&mut self, size: u16) -> (r: Result<Vec<u8>, Error>)
        ensures
            final(self).reader.bytes() == old(self).reader.bytes(),
            size < 2 ==> r matches Err(Error::Parse(_)),
            size >= 2 ==> (r is Ok <==> old(self).reader.pos() + size - 2 <= old(
                self,
            ).reader.bytes().len()),
            size >= 2 && r is Err ==> r == Err::<Vec<u8>, Error>(Error::Io),
            r matches Ok(c) ==> c@ == old(self).reader.bytes().subrange(
                old(self).reader.pos() as int,
                old(self).reader.pos() + size - 2,
            ) && final(self).reader.pos() == old(self).reader.pos() + size - 2,
    {
        if size < 2 {
            return Err(Error::Parse("Segment length too small"));
        }
        read_bytes(&mut self.reader, (size - 2) as usize)
    }

    /// Where the entropy-coded data of a scan would be decoded; nothing is decoded yet.
    fn decode_scan(&self) {
    }

    pub fn parse_frame_header(&mut self, n: u8, _size: u16) -> (r: Result<FrameHeader, Error>)
        ensures
            final(self).reader_spec().bytes() == old(self).reader_spec().bytes(),
            r is Ok <==> frame_ok(old(self).reader_spec().bytes(), old(self).reader_spec().pos() as int),
            r is Err && frame_short(old(self).reader_spec().bytes(), old(self).reader_spec().pos() as int)
                ==> r == Err::<FrameHeader, Error>(Error::Io),
            r is Err && !frame_short(old(self).reader_spec().bytes(), old(self).reader_spec().pos() as int)
                ==> r matches Err(Error::Parse(_)),
            r is Ok ==> r->Ok_0 == frame_at(old(self).reader_spec().bytes(), old(self).reader_spec().pos() as int, n)
                && final(self).reader_spec().pos() == old(self).reader_spec().pos() + 15,
    {
        let ghost d = self.reader.bytes();
        let ghost p = self.reader.pos() as int;
        let encoding_process = match n {
            0 => EncodingProcess::BaselineDct,
            1 => EncodingProcess::ExtendedSequentialDctHc,
            2 => EncodingProcess::ProgressiveDctHc,
            3 => EncodingProcess::LosslessHc,
            9 => EncodingProcess::ExtendedSequentialDctAc,
            10 => EncodingProcess::ProgressiveDctAc,
            11 => EncodingProcess::LosslessAc,
            _ => EncodingProcess::Unknown,
        };
        let precision = match read_u8(&mut self.reader) {
            Ok(v) => v,
            Err(e) => {
                return Err(e);
            },
        };
        if precision != 8 {
            return Err(Error::Parse("Sample precision must be 8"));
        }
        let max_lines = match read_u16_be(&mut self.reader) {
            Ok(v) => v,
            Err(e) => {
                return Err(e);
            },
        };
        if max_lines == 0 {
            return Err(Error::Parse("Frame has no lines"));
        }
        let max_samples_per_line = match read_u16_be(&mut self.reader) {
            Ok(v) => v,
            Err(e) => {
                return Err(e);
            },
        };
        let components_count = match read_u8(&mut self.reader) {
            Ok(v) => v,
            Err(e) => {
                return Err(e);
            },
        };
        if components_count != 3 {
            return Err(Error::Parse("Only frames of 3 components are supported"));
        }
        let mut frame_header = FrameHeader {
            encoding_process,
            precision,
            max_lines,
            max_samples_per_line,
            components_count,
            component_headers: [None, None, None, None],
        };
        let mut i: usize = 0;
        while i < 3
            invariant
                self.reader.bytes() == d,
                d == old(self).reader.bytes(),
                p == old(self).reader.pos(),
                i <= 3,
                self.reader.pos() == p + 6 + 3 * i,
                p + 6 + 3 * i <= d.len(),
                d[p] == 8,
                be16(d[p + 1], d[p + 2]) != 0,
                d[p + 5] == 3,
                frame_header.encoding_process == process_of(n),
                frame_header.precision == d[p],
                frame_header.max_lines == be16(d[p + 1], d[p + 2]),
                frame_header.max_samples_per_line == be16(d[p + 3], d[p + 4]),
                frame_header.components_count == 3,
                frame_header.component_headers@[3] == None::<FrameComponentHeader>,
                forall|c: int| i <= c < 3 ==> #[trigger] frame_header.component_headers@[c] == None::<FrameComponentHeader>,
                forall|c: int|
                    0 <= c < i ==> #[trigger] frame_header.component_headers@[c] == Some(
                        frame_component_at(d, p + 6 + 3 * c),
                    ),
            decreases 3 - i,
        {
            let id = match read_u8(&mut self.reader) {
                Ok(v) => v,
                Err(e) => {
                    return Err(e);
                },
            };
            let sampling_factor = match read_u8(&mut self.reader) {
                Ok(v) => v,
                Err(e) => {
                    return Err(e);
                },
            };
            let (horizontal_sampling_factor, vertical_sampling_factor) = split_nibbles(
                sampling_factor,
            );
            let quantization_table_selector = match read_u8(&mut self.reader) {
                Ok(v) => v,
                Err(e) => {
                    return Err(e);
                },
            };
            frame_header.component_headers[i] = Some(
                FrameComponentHeader {
                    id,
                    horizontal_sampling_factor,
                    vertical_sampling_factor,
                    quantization_table_selector,
                },
            );
            i = i + 1;
        }
        assert(frame_header.component_headers@ =~= frame_at(d, p, n).component_headers@);
        assert(frame_header.component_headers == frame_at(d, p, n).component_headers);
        Ok(frame_header)
    }

    pub fn parse_scan_header(&mut self, _size: u16, _frame_header: &FrameHeader) -> (r: Result<
        ScanHeader,
        Error,
    >)
        ensures
            final(self).reader_spec().bytes() == old(self).reader_spec().bytes(),
            r is Ok <==> scan_ok(old(self).reader_spec().bytes(), old(self).reader_spec().pos() as int),
            r is Err && scan_short(old(self).reader_spec().bytes(), old(self).reader_spec().pos() as int)
                ==> r == Err::<ScanHeader, Error>(Error::Io),
            r is Err && !scan_short(old(self).reader_spec().bytes(), old(self).reader_spec().pos() as int)
                ==> r matches Err(Error::Parse(_)),
            r is Ok ==> r->Ok_0 == scan_at(old(self).reader_spec().bytes(), old(self).reader_spec().pos() as int)
                && final(self).reader_spec().pos() == old(self).reader_spec().pos() + scan_len(
                old(self).reader_spec().bytes(),
                old(self).reader_spec().pos() as int,
            ),
    {
        let ghost d = self.reader.bytes();
        let ghost p = self.reader.pos() as int;
        let components_count = match read_u8(&mut self.reader) {
            Ok(v) => v,
            Err(e) => {
                return Err(e);
            },
        };
        if !(0 < components_count && components_count < 4) {
            return Err(Error::Parse("Scan component count must be 1 to 3"));
        }
        let mut scan_header = ScanHeader {
            components_count,
            component_headers: [None, None, None, None],
        };
        let mut i: usize = 0;
        while i < components_count as usize
            invariant
                self.reader.bytes() == d,
                d == old(self).reader.bytes(),
                p == old(self).reader.pos(),
                p < d.len(),
                components_count == d[p],
                0 < components_count < 4,
                i <= components_count,
                self.reader.pos() == p + 1 + 2 * i,
                p + 1 + 2 * i <= d.len(),
                scan_header.components_count == d[p],
                forall|c: int|
                    i <= c < 4 ==> #[trigger] scan_header.component_headers@[c] == None::<
                        ScanComponentHeader,
                    >,
                forall|c: int|
                    0 <= c < i ==> #[trigger] scan_header.component_headers@[c] == Some(
                        scan_component_at(d, p + 1 + 2 * c),
                    ),
            decreases components_count - i,
        {
            let scan_component_selector = match read_u8(&mut self.reader) {
                Ok(v) => v,
                Err(e) => {
                    return Err(e);
                },
            };
            let selectors = match read_u8(&mut self.reader) {
                Ok(v) => v,
                Err(e) => {
                    return Err(e);
                },
            };
            let (dc_entropy_coding_table_selector, ac_entropy_coding_table_selector) = split_nibbles(
                selectors,
            );
            // Components are taken in the order they come; they are not matched
            // against the frame's order.
            scan_header.component_headers[i] = Some(
                ScanComponentHeader {
                    scan_component_selector,
                    dc_entropy_coding_table_selector,
                    ac_entropy_coding_table_selector,
                },
            );
            i = i + 1;
        }
        // Three bytes that the baseline process does not use.
        match self.reader.skip(3) {
            Ok(()) => {},
            Err(e) => {
                return Err(e);
            },
        }
        assert(scan_header.component_headers@ =~= scan_at(d, p).component_headers@);
        assert(scan_header.component_headers == scan_at(d, p).component_headers);
        Ok(scan_header)
    }

    /// Reads one Huffman table record: class and destination, 16 symbol counts, the symbols.
    fn read_huffman_record(&mut self) -> (r: Result<(u8, u8, HuffmanTable), Error>)
        ensures
            final(self).reader.bytes() == old(self).reader.bytes(),
            r is Ok <==> huffman_record_ok(old(self).reader.bytes(), old(self).reader.pos() as int),
            r is Err ==> r == Err::<(u8, u8, HuffmanTable), Error>(Error::Io),
            r matches Ok(rec) ==> huffman_record_matches(
                old(self).reader.bytes(),
                old(self).reader.pos() as int,
                rec,
            ) && final(self).reader.pos() == old(self).reader.pos() + huffman_record_len(
                old(self).reader.bytes(),
                old(self).reader.pos() as int,
            ),
    {
        let ghost d = self.reader.bytes();
        let ghost p = self.reader.pos() as int;
        let info = match read_u8(&mut self.reader) {
            Ok(v) => v,
            Err(e) => {
                return Err(e);
            },
        };
        let (class, destination) = split_nibbles(info);
        let counts = match read_bytes(&mut self.reader, 16) {
            Ok(v) => v,
            Err(e) => {
                return Err(e);
            },
        };
        let ghost c = counts_at(d, p);
        assert(counts@ == c);
        let mut table: HuffmanTable = [
            Vec::new(),
            Vec::new(),
            Vec::new(),
            Vec::new(),
            Vec::new(),
            Vec::new(),
            Vec::new(),
            Vec::new(),
            Vec::new(),
            Vec::new(),
            Vec::new(),
            Vec::new(),
            Vec::new(),
            Vec::new(),
            Vec::new(),
            Vec::new(),
        ];
        let mut l: usize = 0;
        while l < 16
            invariant
                self.reader.bytes() == d,
                d == old(self).reader.bytes(),
                p == old(self).reader.pos(),
                counts@ == c,
                c == counts_at(d, p),
                p + 17 <= d.len(),
                l <= 16,
                self.reader.pos() == p + 17 + count_sum(c, l as int),
                self.reader.pos() <= d.len(),
                forall|m: int| 0 <= m < l ==> (#[trigger] table@[m])@ == huffman_slot_at(d, p, m),
            decreases 16 - l,
        {
            let n = counts[l];
            let symbols = match read_bytes(&mut self.reader, n as usize) {
                Ok(v) => v,
                Err(e) => {
                    proof {
                        lemma_count_sum_mono(c, l + 1, 16);
                    }
                    return Err(e);
                },
            };
            table[l] = symbols;
            l = l + 1;
        }
        Ok((class, destination, table))
    }

    /// Reads the Huffman table records of a segment of declared length `size`.
    pub fn parse_huffman_table(&mut self, size: u16) -> (r: Result<Vec<(u8, u8, HuffmanTable)>, Error>)
        ensures
            final(self).reader_spec().bytes() == old(self).reader_spec().bytes(),
            size < 2 ==> r matches Err(Error::Parse(_)),
            size >= 2 && r is Err ==> r == Err::<Vec<(u8, u8, HuffmanTable)>, Error>(Error::Io),
            size >= 2 ==> (r is Ok <==> huffman_segment_ok(
                old(self).reader_spec().bytes(),
                old(self).reader_spec().pos() as int,
                old(self).reader_spec().pos() + size - 2,
            )),
            r matches Ok(ts) ==> {
                let d = old(self).reader_spec().bytes();
                let p = old(self).reader_spec().pos() as int;
                &&& forall|k: int|
                    0 <= k < ts@.len() ==> #[trigger] huffman_record_start(d, p, k) < p + size - 2
                &&& forall|k: int|
                    0 <= k < ts@.len() ==> huffman_record_matches(
                        d,
                        huffman_record_start(d, p, k),
                        #[trigger] ts@[k],
                    )
                &&& huffman_record_start(d, p, ts@.len() as int) >= p + size - 2
                &&& final(self).reader_spec().pos() == huffman_record_start(d, p, ts@.len() as int)
            },
    {
        let ghost d = self.reader.bytes();
        let ghost p = self.reader.pos() as int;
        let start = self.reader.position();
        if size < 2 {
            return Err(Error::Parse("Segment length too small"));
        }
        let end: usize = (size - 2) as usize;
        let mut tables: Vec<(u8, u8, HuffmanTable)> = Vec::new();
        let mut bytes_read: usize = 0;
        while bytes_read < end
            invariant
                bytes_read == self.reader.pos() - p,
                self.reader.bytes() == d,
                d == old(self).reader.bytes(),
                p == old(self).reader.pos(),
                start == p,
                end == size - 2,
                p <= self.reader.pos() <= d.len(),
                self.reader.pos() == huffman_record_start(d, p, tables@.len() as int),
                huffman_segment_ok(d, p, p + end) == huffman_segment_ok(
                    d,
                    self.reader.pos() as int,
                    p + end,
                ),
                forall|k: int|
                    0 <= k < tables@.len() ==> #[trigger] huffman_record_start(d, p, k) < p + end,
                forall|k: int|
                    0 <= k < tables@.len() ==> huffman_record_matches(
                        d,
                        huffman_record_start(d, p, k),
                        #[trigger] tables@[k],
                    ),
            decreases d.len() - self.reader.pos(),
        {
            let ghost s = self.reader.pos() as int;
            assert(s < p + end);
            assert(s == huffman_record_start(d, p, tables@.len() as int));
            let record = match self.read_huffman_record() {
                Ok(v) => v,
                Err(e) => {
                    return Err(e);
                },
            };
            bytes_read = self.reader.position() - start;
            let ghost before = tables@;
            tables.push(record);
            proof {
                assert(huffman_record_start(d, p, tables@.len() as int) == s + huffman_record_len(d, s));
                assert forall|k: int|
                    0 <= k < tables@.len() implies huffman_record_matches(
                        d,
                        huffman_record_start(d, p, k),
                        #[trigger] tables@[k],
                    ) by {
                    if k < tables@.len() - 1 {
                        assert(tables@[k] == before[k]);
                    }
                }
            }
        }
        Ok(tables)
    }

    pub fn parse_quantization_table(&mut self, size: u16) -> (r: Result<Vec<(u8, QuantizationTable)>, Error>)
        ensures
            final(self).reader_spec().bytes() == old(self).reader_spec().bytes(),
            r is Ok <==> quant_ok(old(self).reader_spec().bytes(), old(self).reader_spec().pos() as int, size),
            size < 2 ==> r matches Err(Error::Parse(_)),
            size >= 2 && r is Err && quant_unsupported(
                old(self).reader_spec().bytes(),
                old(self).reader_spec().pos() as int,
                0,
                quant_count(size),
            ) ==> r matches Err(Error::Unsupported(_)),
            size >= 2 && r is Err && !quant_unsupported(
                old(self).reader_spec().bytes(),
                old(self).reader_spec().pos() as int,
                0,
                quant_count(size),
            ) ==> r == Err::<Vec<(u8, QuantizationTable)>, Error>(Error::Io),
            r matches Ok(ts) ==> {
                &&& ts@.len() == quant_count(size)
                &&& final(self).reader_spec().pos() == old(self).reader_spec().pos() + 65 * ts@.len()
                &&& forall|k: int|
                    0 <= k < ts@.len() ==> (#[trigger] ts@[k]).0 == low_nibble(
                        old(self).reader_spec().bytes()[old(self).reader_spec().pos() + 65 * k],
                    ) && ts@[k].1@ == old(self).reader_spec().bytes().subrange(
                        old(self).reader_spec().pos() + 65 * k + 1,
                        old(self).reader_spec().pos() + 65 * k + 65,
                    )
            },
    {
        let ghost d = self.reader.bytes();
        let ghost p = self.reader.pos() as int;
        // The reader's position never passes the end of its bytes.
        let _ = self.reader.position();
        if size < 2 {
            return Err(Error::Parse("Segment length too small"));
        }
        let end: usize = (size - 2) as usize;
        let mut bytes_read: usize = 0;
        let mut tables: Vec<(u8, QuantizationTable)> = Vec::new();
        while bytes_read < end
            invariant
                self.reader.bytes() == d,
                d == old(self).reader.bytes(),
                p == old(self).reader.pos(),
                size >= 2,
                end == size - 2,
                bytes_read == 65 * tables@.len(),
                tables@.len() <= quant_count(size),
                tables@.len() < quant_count(size) ==> bytes_read < end,
                tables@.len() == quant_count(size) ==> bytes_read >= end,
                self.reader.pos() == p + bytes_read,
                p + bytes_read <= d.len(),
                forall|k: int| 0 <= k < tables@.len() ==> #[trigger] high_nibble(d[p + 65 * k]) == 0,
                quant_unsupported(d, p, 0, quant_count(size)) == quant_unsupported(
                    d,
                    p,
                    tables@.len() as int,
                    quant_count(size),
                ),
                forall|k: int|
                    0 <= k < tables@.len() ==> (#[trigger] tables@[k]).0 == low_nibble(d[p + 65 * k])
                        && tables@[k].1@ == d.subrange(p + 65 * k + 1, p + 65 * k + 65),
            decreases quant_count(size) - tables@.len(),
        {
            proof {
                assert(tables@.len() < quant_count(size));
            }
            let info = match read_u8(&mut self.reader) {
                Ok(v) => v,
                Err(e) => {
                    return Err(e);
                },
            };
            let (precision, destination) = split_nibbles(info);
            if precision != 0 {
                assert(!quant_ok(d, p, size)) by {
                    assert(high_nibble(d[p + 65 * tables@.len()]) != 0);
                }
                return Err(Error::Unsupported("Only 8-bit quantization tables are supported"));
            }
            let table = match read_bytes(&mut self.reader, 64) {
                Ok(v) => v,
                Err(e) => {
                    return Err(e);
                },
            };
            assert(quant_unsupported(d, p, tables@.len() as int, quant_count(size))
                == quant_unsupported(d, p, tables@.len() + 1int, quant_count(size)));
            let ghost k = tables@.len() as int;
            tables.push((destination, table));
            bytes_read = bytes_read + 65;
            proof {
                let n = tables@.len() as int;
                let e = size - 2;
                assert(quant_count(size) == (e + 64) / 65);
                if n < quant_count(size) {
                    assert(65 * n < e) by (nonlinear_arith)
                        requires
                            n < (e + 64) / 65,
                            e >= 0,
                    ;
                }
                if n == quant_count(size) {
                    assert(65 * n >= e) by (nonlinear_arith)
                        requires
                            n == (e + 64) / 65,
                            e >= 0,
                    ;
                }
                assert(tables@[k].1@ == d.subrange(p + 65 * k + 1, p + 65 * k + 65));
            }
        }
        proof {
            let n = tables@.len() as int;
            let e = size - 2;
            if n < quant_count(size) {
                assert(65 * n < e) by (nonlinear_arith)
                    requires
                        n < (e + 64) / 65,
                        e >= 0,
                ;
            }
        }
        Ok(tables)
    }
}

} // verus!
