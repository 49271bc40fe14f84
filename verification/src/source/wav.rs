//! A decoder for little-endian RIFF/WAVE files.
//!
//! The decoder hands out the sample codes as the file stores them, one signed
//! 32-bit integer per sample. Scaling a code to a unit-range sample is left to
//! the caller, who gets the divisor from [`Format::full_scale`].

use vstd::prelude::*;
use crate::source::Source;

verus! {

/// Why a byte blob was not accepted as a WAVE file.
#[derive(Clone, Copy, Debug, PartialEq, Eq)]
pub enum Error {
    /// This does not appear to be a .wav file
    InvalidFile,
    /// The audio data in this file is malformed
    MalformedData,
    /// The audio data in this file is encoded in a way we don't support
    UnknownFormat,
}

/// The sample encodings that the decoder reads.
#[derive(Clone, Copy, Debug, PartialEq, Eq)]
pub enum Format {
    /// Unsigned 8-bit PCM, silence at 0x80.
    U8,
    /// Signed 16-bit PCM.
    I16,
    /// Signed 24-bit PCM.
    I24,
    /// Signed 32-bit PCM.
    I32,
    /// IEEE-754 single precision.
    F32,
}

/// Where a file keeps its samples and how it encodes them.
pub struct Layout {
    pub format: Format,
    pub channels: nat,
    pub sample_rate: nat,
    pub data_start: nat,
    pub data_len: nat,
}

/// The unsigned 16-bit little-endian number at `at`.
pub open spec fn le16(bytes: Seq<u8>, at: int) -> int {
    bytes[at] + 256 * bytes[at + 1]
}

/// The unsigned 24-bit little-endian number at `at`.
pub open spec fn le24(bytes: Seq<u8>, at: int) -> int {
    bytes[at] + 256 * bytes[at + 1] + 65536 * bytes[at + 2]
}

/// The unsigned 32-bit little-endian number at `at`.
pub open spec fn le32(bytes: Seq<u8>, at: int) -> int {
    bytes[at] + 256 * bytes[at + 1] + 65536 * bytes[at + 2] + 16777216 * bytes[at + 3]
}

/// The two's-complement reading of an unsigned number below `2 * half`.
pub open spec fn signed(value: int, half: int) -> int {
    if value >= half {
        value - 2 * half
    } else {
        value
    }
}

/// Whether the four bytes at `at` spell the given tag.
pub open spec fn tagged(bytes: Seq<u8>, at: int, tag: Seq<u8>) -> bool {
    at + 4 <= bytes.len() && bytes.subrange(at, at + 4) == tag
}

pub open spec fn riff_tag() -> Seq<u8> {
    seq![0x52u8, 0x49u8, 0x46u8, 0x46u8]
}

pub open spec fn wave_tag() -> Seq<u8> {
    seq![0x57u8, 0x41u8, 0x56u8, 0x45u8]
}

pub open spec fn data_tag() -> Seq<u8> {
    seq![0x64u8, 0x61u8, 0x74u8, 0x61u8]
}

/// The fixed part of a file: at least 36 bytes, "RIFF" first and "WAVE" at
/// offset 8.
pub open spec fn has_header(bytes: Seq<u8>) -> bool {
    bytes.len() >= 36 && tagged(bytes, 0, riff_tag()) && tagged(bytes, 8, wave_tag())
}

/// Walks the chunks from `at` to the first one tagged "data" and gives the
/// offset of its payload and its declared length. Other chunks are stepped
/// over by their declared length; a chunk header that does not fit in the
/// file, or another chunk that runs past the file's end, finds nothing.
pub open spec fn find_data(bytes: Seq<u8>, at: nat) -> Option<(nat, nat)>
    decreases bytes.len() - at,
{
    let chunk_len = le32(bytes, at as int + 4) as nat;
    if bytes.len() < at + 8 {
        None
    } else if tagged(bytes, at as int, data_tag()) {
        Some(((at + 8) as nat, chunk_len))
    } else if bytes.len() < at + 8 + chunk_len {
        None
    } else {
        find_data(bytes, at + 8 + chunk_len)
    }
}

/// The encoding named by a format tag and a sample width.
pub open spec fn format_of(audio_format: int, sample_bits: int) -> Option<Format> {
    if audio_format == 1 && sample_bits == 8 {
        Some(Format::U8)
    } else if audio_format == 1 && sample_bits == 16 {
        Some(Format::I16)
    } else if audio_format == 1 && sample_bits == 24 {
        Some(Format::I24)
    } else if audio_format == 1 && sample_bits == 32 {
        Some(Format::I32)
    } else if audio_format == 3 && sample_bits == 32 {
        Some(Format::F32)
    } else {
        None
    }
}

/// What a byte blob holds, or why it is refused. The checks come in this
/// order: the header, the walk to the data chunk, the chunk's extent, the
/// encoding.
pub open spec fn parse(bytes: Seq<u8>) -> Result<Layout, Error> {
    if !has_header(bytes) {
        Err(Error::InvalidFile)
    } else {
        match find_data(bytes, 36) {
            None => Err(Error::InvalidFile),
            Some((data_start, data_len)) => {
                if data_start + data_len > bytes.len() {
                    Err(Error::MalformedData)
                } else {
                    match format_of(le16(bytes, 20), le16(bytes, 34)) {
                        None => Err(Error::UnknownFormat),
                        Some(format) => Ok(
                            Layout {
                                format,
                                channels: le16(bytes, 22) as nat,
                                sample_rate: le32(bytes, 24) as nat,
                                data_start,
                                data_len,
                            },
                        ),
                    }
                }
            },
        }
    }
}

/// The code of the sample whose first byte is at `at`.
pub open spec fn sample_code(format: Format, bytes: Seq<u8>, at: int) -> int {
    match format {
        Format::U8 => bytes[at] - 128,
        Format::I16 => signed(le16(bytes, at), 32768),
        Format::I24 => signed(le24(bytes, at), 8388608),
        Format::I32 => signed(le32(bytes, at), 2147483648),
        Format::F32 => signed(le32(bytes, at), 2147483648),
    }
}

/// The codes of all whole samples in `data`, in order. Bytes left over at the
/// end that do not make a sample are ignored.
pub open spec fn decode(format: Format, data: Seq<u8>) -> Seq<i32> {
    Seq::new(
        (data.len() / format.width()) as nat,
        |i: int| sample_code(format, data, i * format.width()) as i32,
    )
}

impl Format {
    /// Bytes per sample.
    pub open spec fn width(self) -> nat {
        match self {
            Format::U8 => 1,
            Format::I16 => 2,
            Format::I24 => 3,
            Format::I32 => 4,
            Format::F32 => 4,
        }
    }

    /// Bytes per sample.
    pub fn sample_bytes(self) -> (bytes: usize)
        ensures
            bytes == self.width(),
    {
        match self {
            Format::U8 => 1,
            Format::I16 => 2,
            Format::I24 => 3,
            Format::I32 => 4,
            Format::F32 => 4,
        }
    }

    /// The divisor that maps a sample code to the unit range, for the
    /// formats that have one.
    pub open spec fn divisor(self) -> Option<u32> {
        match self {
            Format::U8 => Some(127u32),
            Format::I16 => Some(32767u32),
            Format::I24 => Some(8388608u32),
            Format::I32 => Some(2147483647u32),
            Format::F32 => None,
        }
    }

    /// The divisor that maps a sample code to the unit range: 127 for 8-bit
    /// codes (already centred on zero), the largest positive code for 16 and
    /// 32 bits, and 2^23 for 24 bits. A float file has none: its code is the
    /// bit pattern of the sample itself.
    pub fn full_scale(self) -> (scale: Option<u32>)
        ensures
            scale == self.divisor(),
    {
        match self {
            Format::U8 => Some(127),
            Format::I16 => Some(32767),
            Format::I24 => Some(8388608),
            Format::I32 => Some(2147483647),
            Format::F32 => None,
        }
    }
}

/// A source that plays the samples of one WAVE file.
#[derive(Clone, Debug)]
pub struct WavPlayer {
    file: Vec<u8>,
    channels: usize,
    sample_rate: usize,
    sample_bytes: usize,
    next_sample_offset: usize,
    format: Format,
    length: usize,
}

fn read_u16(file: &Vec<u8>, at: usize) -> (value: u16)
    requires
        at + 2 <= file.len(),
    ensures
        value == le16(file@, at as int),
{
    let low: u16 = file[at] as u16;
    let high: u16 = file[at + 1] as u16;
    low + 256 * high
}

fn read_u32(file: &Vec<u8>, at: usize) -> (value: u32)
    requires
        at + 4 <= file.len(),
    ensures
        value == le32(file@, at as int),
{
    let b0: u32 = file[at] as u32;
    let b1: u32 = file[at + 1] as u32;
    let b2: u32 = file[at + 2] as u32;
    let b3: u32 = file[at + 3] as u32;
    b0 + 256 * b1 + 65536 * b2 + 16777216 * b3
}

fn has_tag(file: &Vec<u8>, at: usize, b0: u8, b1: u8, b2: u8, b3: u8) -> (found: bool)
    requires
        at + 4 <= file.len(),
    ensures
        found == tagged(file@, at as int, seq![b0, b1, b2, b3]),
{
    let found = file[at] == b0 && file[at + 1] == b1 && file[at + 2] == b2 && file[at + 3] == b3;
    proof {
        let part = file@.subrange(at as int, at + 4);
        let tag = seq![b0, b1, b2, b3];
        if found {
            assert(part =~= tag);
        } else {
            assert(part[0] == file@[at as int]);
            assert(part[1] == file@[at + 1]);
            assert(part[2] == file@[at + 2]);
            assert(part[3] == file@[at + 3]);
        }
    }
    found
}

fn read_code(format: Format, file: &Vec<u8>, at: usize) -> (code: i32)
    requires
        at + format.width() <= file.len(),
    ensures
        code == sample_code(format, file@, at as int),
{
    match format {
        Format::U8 => {
            let byte: i32 = file[at] as i32;
            byte - 128
        },
        Format::I16 => {
            let value: i32 = read_u16(file, at) as i32;
            if value >= 32768 {
                value - 65536
            } else {
                value
            }
        },
        Format::I24 => {
            let b0: i32 = file[at] as i32;
            let b1: i32 = file[at + 1] as i32;
            let b2: i32 = file[at + 2] as i32;
            let value: i32 = b0 + 256 * b1 + 65536 * b2;
            if value >= 8388608 {
                value - 16777216
            } else {
                value
            }
        },
        Format::I32 | Format::F32 => {
            let value: i64 = read_u32(file, at) as i64;
            if value >= 2147483648 {
                (value - 4294967296) as i32
            } else {
                value as i32
            }
        },
    }
}

impl WavPlayer {
    /// The bytes of the samples not yet played.
    pub closed spec fn pending_bytes(&self) -> Seq<u8> {
        self.file@.skip(self.next_sample_offset as int)
    }

    /// The codes of the samples not yet played.
    pub open spec fn remaining(&self) -> Seq<i32> {
        decode(self.format_spec(), self.pending_bytes())
    }

    /// The file's encoding.
    pub closed spec fn format_spec(&self) -> Format {
        self.format
    }

    /// The channel count that the file declares.
    pub closed spec fn declared_channels(&self) -> nat {
        self.channels as nat
    }

    /// The sample rate that the file declares.
    pub closed spec fn rate(&self) -> nat {
        self.sample_rate as nat
    }

    /// The number of samples in the file's data chunk.
    pub closed spec fn total(&self) -> nat {
        self.length as nat
    }

    /// The invariant of the decoder's cursor.
    pub closed spec fn well_formed(&self) -> bool {
        &&& self.next_sample_offset <= self.file@.len()
        &&& self.sample_bytes == self.format.width()
    }

    /// Whether this is the decoder of `file`, laid out as `layout`, with its
    /// cursor on the first sample: it plays the bytes of the data chunk and
    /// no others, and is a source if the file declares a channel.
    pub open spec fn opens(&self, file: Seq<u8>, layout: Layout) -> bool {
        &&& self.well_formed()
        &&& self.format_spec() == layout.format
        &&& self.declared_channels() == layout.channels
        &&& self.rate() == layout.sample_rate
        &&& self.total() == layout.data_len / layout.format.width()
        &&& self.pending_bytes() == file.subrange(
            layout.data_start as int,
            (layout.data_start + layout.data_len) as int,
        )
        &&& self.valid() <==> layout.channels >= 1
    }

    /// Reads the header of a RIFF/WAVE file and places the cursor on its first
    /// sample. Bytes behind the data chunk's declared end are dropped.
    pub fn new(file: Vec<u8>) -> (result: Result<Self, Error>)
        ensures
            parse(file@) is Ok ==> result is Ok && result->Ok_0.opens(file@, parse(file@)->Ok_0),
            parse(file@) is Err ==> result is Err && result->Err_0 == parse(file@)->Err_0,
    {
        if file.len() < 36 || !has_tag(&file, 0, 0x52, 0x49, 0x46, 0x46) || !has_tag(
            &file,
            8,
            0x57,
            0x41,
            0x56,
            0x45,
        ) {
            return Err(Error::InvalidFile);
        }
        let audio_format: u16 = read_u16(&file, 20);
        let channels: u16 = read_u16(&file, 22);
        let sample_rate: u32 = read_u32(&file, 24);
        let sample_bits: u16 = read_u16(&file, 34);

        let mut data_start: usize = 36;
        let mut data_len: usize = 0;
        let mut found: bool = false;
        while !found
            invariant
                file@.len() <= usize::MAX,
                data_start <= file@.len(),
                !found ==> find_data(file@, 36) == find_data(file@, data_start as nat),
                found ==> find_data(file@, 36) == Some((data_start as nat, data_len as nat)),
            decreases file@.len() - data_start + (if found { 0int } else { 1int }),
        {
            if file.len() - data_start < 8 {
                return Err(Error::InvalidFile);
            }
            let is_data_chunk = has_tag(&file, data_start, 0x64, 0x61, 0x74, 0x61);
            let chunk_len: u32 = read_u32(&file, data_start + 4);
            if is_data_chunk {
                data_start = data_start + 8;
                data_len = chunk_len as usize;
                found = true;
            } else if chunk_len as usize > file.len() - data_start - 8 {
                return Err(Error::InvalidFile);
            } else {
                data_start = data_start + 8 + chunk_len as usize;
            }
        }

        if data_len > file.len() - data_start {
            return Err(Error::MalformedData);
        }
        let expected_file_length: usize = data_start + data_len;
        let ghost whole = file@;
        let mut file = file;
        file.truncate(expected_file_length);

        let format = if audio_format == 1 && sample_bits == 8 {
            Format::U8
        } else if audio_format == 1 && sample_bits == 16 {
            Format::I16
        } else if audio_format == 1 && sample_bits == 24 {
            Format::I24
        } else if audio_format == 1 && sample_bits == 32 {
            Format::I32
        } else if audio_format == 3 && sample_bits == 32 {
            Format::F32
        } else {
            return Err(Error::UnknownFormat);
        };
        let sample_bytes: usize = format.sample_bytes();
        let player = WavPlayer {
            file,
            channels: channels as usize,
            sample_rate: sample_rate as usize,
            sample_bytes,
            next_sample_offset: data_start,
            format,
            length: data_len / sample_bytes,
        };
        proof {
            assert(player.pending_bytes() =~= whole.subrange(
                data_start as int,
                data_start + data_len,
            ));
        }
        Ok(player)
    }

    /// Returns the total number of samples in this wav file
    pub fn length(&self) -> (length: usize)
        ensures
            length == self.total(),
    {
        self.length
    }

    /// Returns the sample rate of this wav file (eg. 44100)
    pub fn sample_rate(&self) -> (rate: usize)
        ensures
            rate == self.rate(),
    {
        self.sample_rate
    }

    /// Returns the encoding of this wav file's samples.
    pub fn format(&self) -> (format: Format)
        ensures
            format == self.format_spec(),
    {
        self.format
    }
}

impl Source<i32> for WavPlayer {
    /// A decoder is a source when its cursor is sound and its file declares
    /// at least one channel.
    open spec fn valid(&self) -> bool {
        self.well_formed() && self.declared_channels() >= 1
    }

    open spec fn channels(&self) -> nat {
        self.declared_channels()
    }

    open spec fn exhausted(&self) -> bool {
        self.remaining().len() == 0
    }

    open spec fn writes(&self, len: nat, written: Seq<i32>) -> bool {
        written == self.remaining().take(vstd::math::min(len as int, self.remaining().len() as int))
    }

    /// A pull leaves the decoder with the samples it had, less those that
    /// were written, of the same file.
    open spec fn leaves(&self, len: nat, written: Seq<i32>, next: &Self) -> bool {
        &&& next.well_formed()
        &&& next.declared_channels() == self.declared_channels()
        &&& next.format_spec() == self.format_spec()
        &&& next.rate() == self.rate()
        &&& next.total() == self.total()
        &&& next.remaining() == self.remaining().skip(written.len() as int)
    }

    /// Writes the codes of the next samples, as many as the buffer takes and
    /// the file still has, and moves the cursor past them.
    fn write_samples(&mut self, buffer: &mut [i32]) -> (count: usize)
        ensures
            count == vstd::math::min(
                old(buffer)@.len() as int,
                old(self).remaining().len() as int,
            ),
            final(buffer)@.take(count as int) == old(self).remaining().take(count as int),
            final(self).remaining() == old(self).remaining().skip(count as int),
            final(self).format_spec() == old(self).format_spec(),
            final(self).rate() == old(self).rate(),
            final(self).total() == old(self).total(),
    {
        let width: usize = self.sample_bytes;
        let start: usize = self.next_sample_offset;
        let left: usize = (self.file.len() - start) / width;
        let count: usize = if buffer.len() <= left {
            buffer.len()
        } else {
            left
        };
        assert(count * width <= self.file.len() - start) by (nonlinear_arith)
            requires
                count <= left,
                left == (self.file.len() - start) / (width as int),
                width >= 1,
        ;
        let mut i: usize = 0;
        while i < count
            invariant
                i <= count,
                count <= buffer@.len(),
                buffer@.len() == old(buffer)@.len(),
                *self == *old(self),
                width == self.format.width(),
                start == self.next_sample_offset,
                count * width <= self.file.len() - start,
                buffer@.skip(count as int) == old(buffer)@.skip(count as int),
                forall|j: int|
                    0 <= j < i ==> buffer@[j] == sample_code(
                        self.format,
                        self.file@,
                        start + j * width,
                    ) as i32,
            decreases count - i,
        {
            assert(i * width + width <= count * width) by (nonlinear_arith)
                requires
                    i < count,
                    width >= 1,
            ;
            let ghost before = buffer@;
            buffer[i] = read_code(self.format, &self.file, start + i * width);
            assert(buffer@.skip(count as int) =~= before.skip(count as int));
            i += 1;
        }
        self.next_sample_offset = start + count * width;
        proof {
            let format = self.format;
            let old_bytes = old(self).pending_bytes();
            let new_bytes = self.pending_bytes();
            let old_codes = old(self).remaining();
            assert(old_codes.len() == left);
            assert forall|j: int| 0 <= j < old_codes.len() implies old_codes[j] == sample_code(
                format,
                self.file@,
                start + j * width,
            ) as i32 by {
                lemma_code_at(format, self.file@, start as int, j);
            }
            assert(buffer@.take(count as int) =~= old_codes.take(count as int));
            assert((new_bytes.len() as int) / (width as int) == left - count) by {
                assert(new_bytes.len() == old_bytes.len() - count * width);
                lemma_whole_samples(old_bytes.len() as int, width as int, count as int);
            }
            assert forall|j: int| 0 <= j < left - count implies self.remaining()[j]
                == old_codes.skip(count as int)[j] by {
                lemma_code_at(format, self.file@, start + count * width, j);
                assert(start + count * width + j * width == start + (count + j) * width)
                    by (nonlinear_arith);
            }
            assert(self.remaining() =~= old_codes.skip(count as int));
        }
        count
    }

    fn channel_count(&self) -> (count: usize) {
        self.channels
    }
}

/// The codes that a format can store.
pub open spec fn representable(format: Format, code: int) -> bool {
    match format {
        Format::U8 => -128 <= code < 128,
        Format::I16 => -32768 <= code < 32768,
        Format::I24 => -8388608 <= code < 8388608,
        Format::I32 => -2147483648 <= code < 2147483648,
        Format::F32 => -2147483648 <= code < 2147483648,
    }
}

/// The number that stands for `code` in two's complement below `2 * half`.
pub open spec fn unsigned(code: int, half: int) -> int {
    if code < 0 {
        code + 2 * half
    } else {
        code
    }
}

/// The bytes that store `code` in a file of the given format.
pub open spec fn encoded(format: Format, code: int) -> Seq<u8> {
    match format {
        Format::U8 => seq![(code + 128) as u8],
        Format::I16 => {
            let value = unsigned(code, 32768);
            seq![(value % 256) as u8, (value / 256) as u8]
        },
        Format::I24 => {
            let value = unsigned(code, 8388608);
            seq![(value % 256) as u8, (value / 256 % 256) as u8, (value / 65536) as u8]
        },
        Format::I32 | Format::F32 => {
            let value = unsigned(code, 2147483648);
            seq![
                (value % 256) as u8,
                (value / 256 % 256) as u8,
                (value / 65536 % 256) as u8,
                (value / 16777216) as u8,
            ]
        },
    }
}

/// Decoding inverts encoding: the bytes that store a code are read back as
/// that code, in every format.
pub proof fn lemma_code_round_trip(format: Format, code: int)
    requires
        representable(format, code),
    ensures
        encoded(format, code).len() == format.width(),
        sample_code(format, encoded(format, code), 0) == code,
        decode(format, encoded(format, code)) == seq![code as i32],
{
    let bytes = encoded(format, code);
    assert(sample_code(format, bytes, 0) == code);
    assert(0 * format.width() == 0);
    assert(decode(format, bytes) =~= seq![code as i32]);
}

/// A sample read from a suffix of the file is the sample at that place in
/// the file.
proof fn lemma_code_at(format: Format, file: Seq<u8>, start: int, index: int)
    requires
        0 <= start <= file.len(),
        0 <= index < (file.len() - start) / (format.width() as int),
    ensures
        sample_code(format, file.skip(start), index * format.width()) == sample_code(
            format,
            file,
            start + index * format.width(),
        ),
        start + index * format.width() + format.width() <= file.len(),
{
    let width = format.width() as int;
    let count = (file.len() - start) / width;
    assert(index * width + width <= count * width) by (nonlinear_arith)
        requires
            0 <= index < count,
            width >= 1,
    ;
    assert(count * width <= file.len() - start) by (nonlinear_arith)
        requires
            count == (file.len() - start) / width,
            width >= 1,
            file.len() - start >= 0,
    ;
}

/// Taking `count` whole samples off the front leaves `count` fewer.
proof fn lemma_whole_samples(len: int, width: int, count: int)
    requires
        width >= 1,
        count >= 0,
        count * width <= len,
    ensures
        (len - count * width) / width == len / width - count,
{
    vstd::arithmetic::div_mod::lemma_fundamental_div_mod(len, width);
    assert((len / width - count) * width == width * (len / width) - count * width)
        by (nonlinear_arith);
    vstd::arithmetic::div_mod::lemma_fundamental_div_mod_converse(
        len - count * width,
        width,
        len / width - count,
        len % width,
    );
}

} // verus!
