use vstd::prelude::*;
use crate::riff::{Chunk, ChunkError, FourCC, SpecChunk, chunk_view, chunks_view, spec_parse, le32};
use i24::I24;

verus! {

/// `i24::I24`: a 24-bit signed integer, carried unchanged by `WavError::I24Error`.
#[verifier::external_type_specification]
#[verifier::external_body]
pub struct ExI24(I24);

/// `std::array::TryFromSliceError`, carried unchanged by the `WavError` variants that hold it.
#[verifier::external_type_specification]
#[verifier::external_body]
pub struct ExTryFromSliceError(std::array::TryFromSliceError);

/// A sample rate in hertz.
#[derive(Debug, PartialEq, Eq, Clone, Copy)]
pub struct SampleRate(u32);

impl View for SampleRate {
    type V = u32;

    closed spec fn view(&self) -> u32 {
        self.0
    }
}

impl From<u32> for SampleRate {
    fn from(value: u32) -> (r: Self)
        ensures
            r@ == value,
    {
        Self(value)
    }
}

impl vstd::std_specs::convert::FromSpecImpl<u32> for SampleRate {
    open spec fn obeys_from_spec() -> bool {
        true
    }

    closed spec fn from_spec(v: u32) -> Self {
        SampleRate(v)
    }
}

impl std::ops::Deref for SampleRate {
    type Target = u32;

    fn deref(&self) -> (r: &u32)
        ensures
            *r == self@,
    {
        &self.0
    }
}

impl Default for SampleRate {
    fn default() -> (r: Self)
        ensures
            r@ == 0,
    {
        SampleRate(0)
    }
}

/// A channel count.
#[derive(Debug, PartialEq, Eq, Clone, Copy)]
pub struct Channels(u16);

impl View for Channels {
    type V = u16;

    closed spec fn view(&self) -> u16 {
        self.0
    }
}

impl From<u16> for Channels {
    fn from(value: u16) -> (r: Self)
        ensures
            r@ == value,
    {
        Self(value)
    }
}

impl vstd::std_specs::convert::FromSpecImpl<u16> for Channels {
    open spec fn obeys_from_spec() -> bool {
        true
    }

    closed spec fn from_spec(v: u16) -> Self {
        Channels(v)
    }
}

impl std::ops::Deref for Channels {
    type Target = u16;

    fn deref(&self) -> (r: &u16)
        ensures
            *r == self@,
    {
        &self.0
    }
}

impl Default for Channels {
    fn default() -> (r: Self)
        ensures
            r@ == 0,
    {
        Channels(0)
    }
}

/// How the samples of a WAV file are encoded.
#[derive(Debug, PartialEq, Eq, Clone, Copy, Structural)]
pub enum FormatCode {
    /// Integer pulse-code modulation (format code 1).
    PCM,
    /// IEEE floating point (format code 3).
    IEEEFloat,
}

/// The format a numeric format code stands for.
pub open spec fn spec_format_code(inner: u16) -> Result<FormatCode, FormatCodeError> {
    if inner == 1 {
        Ok(FormatCode::PCM)
    } else if inner == 3 {
        Ok(FormatCode::IEEEFloat)
    } else {
        Err(FormatCodeError::InvalidCode { actual: inner })
    }
}

impl FormatCode {
    /// The format for code `1` (PCM) or `3` (IEEE float); any other code is an error.
    pub fn new(inner: u16) -> (r: Result<FormatCode, FormatCodeError>)
        ensures
            r == spec_format_code(inner),
    {
        match inner {
            1 => Ok(FormatCode::PCM),
            3 => Ok(FormatCode::IEEEFloat),
            _ => Err(FormatCodeError::InvalidCode { actual: inner }),
        }
    }
}

impl Default for FormatCode {
    fn default() -> (r: Self)
        ensures
            r == FormatCode::PCM,
    {
        FormatCode::PCM
    }
}

/// Errors when reading a format code.
#[derive(Debug, PartialEq, Eq, Clone, Copy, Structural)]
pub enum FormatCodeError {
    /// The code is neither 1 nor 3.
    InvalidCode { actual: u16 },
}

/// One sample as the data chunk stores it, before it is scaled: an unsigned 8-bit
/// value, a signed 16-, 24- or 32-bit value, or the bits of a 32- or 64-bit IEEE float.
#[derive(Debug, PartialEq, Eq, Clone, Copy, Structural)]
pub enum Sample {
    /// An unsigned 8-bit PCM sample.
    U8(u8),
    /// A signed 16-bit PCM sample.
    I16(i16),
    /// A signed 24-bit PCM sample, sign-extended.
    I24(i32),
    /// A signed 32-bit PCM sample.
    I32(i32),
    /// The bits of a 32-bit IEEE float sample.
    F32(u32),
    /// The bits of a 64-bit IEEE float sample.
    F64(u64),
}

/// The decoded content of a WAV file: its format, sample rate, channel count, bits per
/// sample and samples.
#[derive(Debug, PartialEq, Clone)]
pub struct Wav {
    format_code: FormatCode,
    sample_rate: SampleRate,
    channels: Channels,
    bits: u16,
    samples: Vec<Sample>,
}

/// The content of a `Wav`.
pub struct SpecWav {
    pub format_code: FormatCode,
    pub sample_rate: u32,
    pub channels: u16,
    pub bits: u16,
    pub samples: Seq<Sample>,
}

impl View for Wav {
    type V = SpecWav;

    closed spec fn view(&self) -> SpecWav {
        SpecWav {
            format_code: self.format_code,
            sample_rate: self.sample_rate@,
            channels: self.channels@,
            bits: self.bits,
            samples: self.samples@,
        }
    }
}

/// The content a `Wav` starts from before any chunk is read.
pub open spec fn default_wav() -> SpecWav {
    SpecWav { format_code: FormatCode::PCM, sample_rate: 0, channels: 0, bits: 0, samples: Seq::empty() }
}

impl Default for Wav {
    fn default() -> (r: Self)
        ensures
            r@ == default_wav(),
    {
        Wav {
            format_code: FormatCode::default(),
            sample_rate: SampleRate::default(),
            channels: Channels::default(),
            bits: 0,
            samples: Vec::new(),
        }
    }
}

impl Wav {
    /// The sample format.
    pub fn format_code(&self) -> (r: &FormatCode)
        ensures
            *r == self@.format_code,
    {
        &self.format_code
    }

    /// The sample rate.
    pub fn sample_rate(&self) -> (r: &SampleRate)
        ensures
            r@ == self@.sample_rate,
    {
        &self.sample_rate
    }

    /// The channel count.
    pub fn channels(&self) -> (r: &Channels)
        ensures
            r@ == self@.channels,
    {
        &self.channels
    }

    /// The bits per sample.
    pub fn bits(&self) -> (r: u16)
        ensures
            r == self@.bits,
    {
        self.bits
    }

    /// The samples, as the data chunk stores them.
    pub fn samples(&self) -> (r: &Vec<Sample>)
        ensures
            r@ == self@.samples,
    {
        &self.samples
    }
}

/// Errors when reading a WAV file.
#[derive(Debug)]
#[allow(inconsistent_fields)]
pub enum WavError {
    /// The bytes do not hold a RIFF chunk.
    ChunkError(ChunkError),
    /// The format chunk holds an unknown format code.
    FormatCodeError(FormatCodeError),
    /// A 24-bit sample could not be converted.
    I24Error(I24),
    /// The root chunk is not a `RIFF` chunk.
    InvalidRiffChunk { actual: Chunk },
    /// The root chunk's form type is not `WAVE`.
    InvalidWave { actual: FourCC },
    /// The format code field could not be read.
    InvalidFormatCode { actual: Vec<u8>, inner_error: std::array::TryFromSliceError },
    /// The sample rate field could not be read.
    InvalidSampleRate { actual: Vec<u8>, inner_error: std::array::TryFromSliceError },
    /// The channel count field could not be read.
    InvalidChannels { actual: Vec<u8>, inner_error: std::array::TryFromSliceError },
    /// The bits-per-sample field could not be read.
    InvalidBits { actual: Vec<u8>, inner_error: std::array::TryFromSliceError },
    /// A sample could not be read.
    InvalidSample { actual: Vec<u8>, inner_error: std::array::TryFromSliceError },
    /// The sample format does not go with the bits per sample; `expected` lists those that do.
    UnsupportedFormatCode { bits: u16, format_code: FormatCode, expected: Vec<FormatCode> },
    /// The bits per sample are not 8, 16, 24, 32 or 64.
    UnsupportedBits { found_bits: u16 },
}

/// The content of a `WavError`.
#[allow(inconsistent_fields)]
pub enum SpecWavError {
    ChunkError(ChunkError),
    FormatCodeError(FormatCodeError),
    I24Error(I24),
    InvalidRiffChunk { actual: SpecChunk },
    InvalidWave { actual: Seq<u8> },
    InvalidFormatCode { actual: Seq<u8> },
    InvalidSampleRate { actual: Seq<u8> },
    InvalidChannels { actual: Seq<u8> },
    InvalidBits { actual: Seq<u8> },
    InvalidSample { actual: Seq<u8> },
    UnsupportedFormatCode { bits: u16, format_code: FormatCode, expected: Seq<FormatCode> },
    UnsupportedBits { found_bits: u16 },
}

impl View for WavError {
    type V = SpecWavError;

    open spec fn view(&self) -> SpecWavError {
        match self {
            WavError::ChunkError(e) => SpecWavError::ChunkError(*e),
            WavError::FormatCodeError(e) => SpecWavError::FormatCodeError(*e),
            WavError::I24Error(v) => SpecWavError::I24Error(*v),
            WavError::InvalidRiffChunk { actual } => SpecWavError::InvalidRiffChunk { actual: chunk_view(*actual) },
            WavError::InvalidWave { actual } => SpecWavError::InvalidWave { actual: actual@ },
            WavError::InvalidFormatCode { actual, .. } => SpecWavError::InvalidFormatCode { actual: actual@ },
            WavError::InvalidSampleRate { actual, .. } => SpecWavError::InvalidSampleRate { actual: actual@ },
            WavError::InvalidChannels { actual, .. } => SpecWavError::InvalidChannels { actual: actual@ },
            WavError::InvalidBits { actual, .. } => SpecWavError::InvalidBits { actual: actual@ },
            WavError::InvalidSample { actual, .. } => SpecWavError::InvalidSample { actual: actual@ },
            WavError::UnsupportedFormatCode { bits, format_code, expected } => SpecWavError::UnsupportedFormatCode {
                bits: *bits,
                format_code: *format_code,
                expected: expected@,
            },
            WavError::UnsupportedBits { found_bits } => SpecWavError::UnsupportedBits { found_bits: *found_bits },
        }
    }
}

/// The bit depths a WAV file may use.
pub open spec fn supported_bits(bits: u16) -> bool {
    bits == 8 || bits == 16 || bits == 24 || bits == 32 || bits == 64
}

/// The value of two bytes read as a little-endian unsigned integer.
pub open spec fn le16(b0: u8, b1: u8) -> int {
    b0 + b1 * 256
}

/// `u` (below 2^16) read as a two's-complement 16-bit value.
pub open spec fn signed16(u: int) -> int {
    if u >= 0x8000 { u - 0x1_0000 } else { u }
}

/// `u` (below 2^24) read as a two's-complement 24-bit value.
pub open spec fn signed24(u: int) -> int {
    if u >= 0x80_0000 { u - 0x100_0000 } else { u }
}

/// `u` (below 2^32) read as a two's-complement 32-bit value.
pub open spec fn signed32(u: int) -> int {
    if u >= 0x8000_0000 { u - 0x1_0000_0000 } else { u }
}

/// How many samples of `bits` bits `len` bytes hold (for supported bit depths).
pub open spec fn samples_in(bits: u16, len: nat) -> nat {
    if bits == 8 {
        len
    } else if bits == 16 {
        len / 2
    } else if bits == 24 {
        len / 3
    } else if bits == 32 {
        len / 4
    } else {
        len / 8
    }
}

/// Whether samples of `bits` bits may be stored in format `fc`: 8, 16 and 24 bits only
/// as PCM, 64 bits only as IEEE float, 32 bits as either.
pub open spec fn format_fits(bits: u16, fc: FormatCode) -> bool {
    if bits == 64 {
        fc == FormatCode::IEEEFloat
    } else if bits == 32 {
        true
    } else {
        fc == FormatCode::PCM
    }
}

/// The formats that go with `bits` bits, as an error lists them.
pub open spec fn expected_formats(bits: u16) -> Seq<FormatCode> {
    if bits == 64 {
        seq![FormatCode::IEEEFloat]
    } else {
        seq![FormatCode::PCM]
    }
}

/// Sample `i` of `data` for `bits` bits per sample in format `fc`.
pub open spec fn sample_at(bits: u16, fc: FormatCode, data: Seq<u8>, i: int) -> Sample {
    if bits == 8 {
        Sample::U8(data[i])
    } else if bits == 16 {
        Sample::I16(signed16(le16(data[2 * i], data[2 * i + 1])) as i16)
    } else if bits == 24 {
        Sample::I24(signed24(data[3 * i] + data[3 * i + 1] * 256 + data[3 * i + 2] * 65536) as i32)
    } else if bits == 32 {
        if fc == FormatCode::PCM {
            Sample::I32(signed32(le32(data[4 * i], data[4 * i + 1], data[4 * i + 2], data[4 * i + 3])) as i32)
        } else {
            Sample::F32(le32(data[4 * i], data[4 * i + 1], data[4 * i + 2], data[4 * i + 3]) as u32)
        }
    } else {
        Sample::F64((le32(data[8 * i], data[8 * i + 1], data[8 * i + 2], data[8 * i + 3])
            + le32(data[8 * i + 4], data[8 * i + 5], data[8 * i + 6], data[8 * i + 7]) * 0x1_0000_0000) as u64)
    }
}

/// Decoding the samples of a data chunk for `bits` bits per sample in format `fc`:
/// an error for an unsupported bit depth, an error for a format that does not go with
/// the bit depth when there is at least one sample, and the samples otherwise.
pub open spec fn decode_samples(bits: u16, fc: FormatCode, data: Seq<u8>) -> Result<Seq<Sample>, SpecWavError> {
    if !supported_bits(bits) {
        Err(SpecWavError::UnsupportedBits { found_bits: bits })
    } else if samples_in(bits, data.len()) == 0 {
        Ok(Seq::empty())
    } else if !format_fits(bits, fc) {
        Err(SpecWavError::UnsupportedFormatCode { bits, format_code: fc, expected: expected_formats(bits) })
    } else {
        Ok(Seq::new(samples_in(bits, data.len()), |i: int| sample_at(bits, fc, data, i)))
    }
}

proof fn lemma_sample_index_bounds(bits: u16, len: nat, i: int)
    requires
        supported_bits(bits),
        0 <= i < samples_in(bits, len),
    ensures
        bits == 16 ==> 2 * i + 2 <= len,
        bits == 24 ==> 3 * i + 3 <= len,
        bits == 32 ==> 4 * i + 4 <= len,
        bits == 64 ==> 8 * i + 8 <= len,
        bits == 8 ==> i < len,
{
    if bits == 16 {
        assert(2 * i + 2 <= len) by (nonlinear_arith)
            requires
                i < len / 2,
                0 <= i,
        ;
    } else if bits == 24 {
        assert(3 * i + 3 <= len) by (nonlinear_arith)
            requires
                i < len / 3,
                0 <= i,
        ;
    } else if bits == 32 {
        assert(4 * i + 4 <= len) by (nonlinear_arith)
            requires
                i < len / 4,
                0 <= i,
        ;
    } else if bits == 64 {
        assert(8 * i + 8 <= len) by (nonlinear_arith)
            requires
                i < len / 8,
                0 <= i,
        ;
    }
}

/// `i24::I24::from_le_bytes` followed by `I24::to_i32`: the signed 24-bit value of three
/// little-endian bytes, sign-extended to 32 bits.
#[verifier::external_body]
fn i24_from_le_bytes(bytes: [u8; 3]) -> (v: i32)
    ensures
        v == signed24(bytes[0] + bytes[1] * 256 + bytes[2] * 65536),
{
    I24::from_le_bytes(bytes).to_i32()
}

fn read_u16_le(data: &[u8], at: usize) -> (r: u16)
    requires
        at + 2 <= data@.len(),
    ensures
        r == le16(data@[at as int], data@[at + 1]),
{
    (data[at] as u16) + (data[at + 1] as u16) * 256
}

fn read_u32_le(data: &[u8], at: usize) -> (r: u32)
    requires
        at + 4 <= data@.len(),
    ensures
        r == le32(data@[at as int], data@[at + 1], data@[at + 2], data@[at + 3]),
{
    (data[at] as u32) + (data[at + 1] as u32) * 256 + (data[at + 2] as u32) * 65536 + (data[at + 3] as u32) * 16777216
}

fn one_format(f: FormatCode) -> (v: Vec<FormatCode>)
    ensures
        v@ == seq![f],
{
    let mut v: Vec<FormatCode> = Vec::new();
    v.push(f);
    v
}

/// Decodes the samples of a data chunk's payload into `wav`, with the format and bit
/// depth `wav` holds; on an error `wav` is left as it was.
pub fn parse_samples(wav: &mut Wav, data: &[u8]) -> (r: Result<(), WavError>)
    ensures
        match decode_samples(old(wav)@.bits, old(wav)@.format_code, data@) {
            Ok(s) => r is Ok && final(wav)@ == (SpecWav { samples: s, ..old(wav)@ }),
            Err(e) => r matches Err(x) && x@ == e && final(wav)@ == old(wav)@,
        },
{
    let bits = wav.bits;
    let sample_count: usize = match bits {
        8 => data.len(),
        16 => data.len() / 2,
        24 => data.len() / 3,
        32 => data.len() / 4,
        64 => data.len() / 8,
        _ => {
            return Err(WavError::UnsupportedBits { found_bits: wav.bits });
        },
    };
    let ghost fc = wav.format_code;
    let mut samples: Vec<Sample> = Vec::new();
    let mut i: usize = 0;
    while i < sample_count
        invariant
            wav@ == old(wav)@,
            data@.len() <= usize::MAX,
            bits == wav@.bits,
            fc == wav@.format_code,
            supported_bits(bits),
            sample_count == samples_in(bits, data@.len()),
            0 <= i <= sample_count,
            i > 0 ==> format_fits(bits, fc),
            samples@.len() == i,
            forall|j: int| 0 <= j < i ==> #[trigger] samples@[j] == sample_at(bits, fc, data@, j),
        decreases sample_count - i,
    {
        proof {
            lemma_sample_index_bounds(bits, data@.len(), i as int);
            assert(bits == 16 ==> i * 2 + 2 <= data@.len());
        }
        if bits == 8 {
            match wav.format_code {
                FormatCode::PCM => {
                    samples.push(Sample::U8(data[i]));
                },
                _ => {
                    return Err(WavError::UnsupportedFormatCode {
                        bits: wav.bits,
                        format_code: wav.format_code,
                        expected: one_format(FormatCode::PCM),
                    });
                },
            }
        } else if bits == 16 {
            match wav.format_code {
                FormatCode::PCM => {
                    let u = read_u16_le(data, i * 2);
                    let v: i16 = if u >= 0x8000 {
                        (u as i32 - 0x1_0000) as i16
                    } else {
                        u as i16
                    };
                    samples.push(Sample::I16(v));
                },
                _ => {
                    return Err(WavError::UnsupportedFormatCode {
                        bits: wav.bits,
                        format_code: wav.format_code,
                        expected: one_format(FormatCode::PCM),
                    });
                },
            }
        } else if bits == 24 {
            match wav.format_code {
                FormatCode::PCM => {
                    let v = i24_from_le_bytes([data[i * 3], data[i * 3 + 1], data[i * 3 + 2]]);
                    samples.push(Sample::I24(v));
                },
                _ => {
                    return Err(WavError::UnsupportedFormatCode {
                        bits: wav.bits,
                        format_code: wav.format_code,
                        expected: one_format(FormatCode::PCM),
                    });
                },
            }
        } else if bits == 32 {
            match wav.format_code {
                FormatCode::PCM => {
                    let u = read_u32_le(data, i * 4);
                    let v: i32 = if u >= 0x8000_0000 {
                        (u as i64 - 0x1_0000_0000) as i32
                    } else {
                        u as i32
                    };
                    samples.push(Sample::I32(v));
                },
                FormatCode::IEEEFloat => {
                    let u = read_u32_le(data, i * 4);
                    samples.push(Sample::F32(u));
                },
            }
        } else {
            match wav.format_code {
                FormatCode::PCM => {
                    return Err(WavError::UnsupportedFormatCode {
                        bits: wav.bits,
                        format_code: wav.format_code,
                        expected: one_format(FormatCode::IEEEFloat),
                    });
                },
                FormatCode::IEEEFloat => {
                    let lo = read_u32_le(data, i * 8);
                    let hi = read_u32_le(data, i * 8 + 4);
                    let v: u64 = (lo as u64) + (hi as u64) * 0x1_0000_0000;
                    samples.push(Sample::F64(v));
                },
            }
        }
        i = i + 1;
    }
    proof {
        let decoded = decode_samples(bits, fc, data@);
        assert(decoded is Ok);
        assert(samples@ =~= decoded->Ok_0);
    }
    wav.samples = samples;
    Ok(())
}

/// How reading a WAV file, or a step of it, ends: with the content read so far, with
/// an error, or on a format chunk too short to hold the fields it is read for.
pub enum WavOutcome {
    Read(SpecWav),
    Failed(SpecWavError),
    ShortFormat,
}

/// The code `fmt `.
pub open spec fn tag_fmt() -> Seq<u8> {
    seq![0x66u8, 0x6du8, 0x74u8, 0x20u8]
}

/// The code `data`.
pub open spec fn tag_data() -> Seq<u8> {
    seq![0x64u8, 0x61u8, 0x74u8, 0x61u8]
}

/// The form type `WAVE`.
pub open spec fn tag_wave() -> Seq<u8> {
    seq![0x57u8, 0x41u8, 0x56u8, 0x45u8]
}

/// Reading a format chunk's payload into `w`: the format code (bytes 0-1), then, once it
/// is known, the sample rate (bytes 4-7), the channel count (bytes 2-3) and the bits per
/// sample (bytes 14-15), which must be a supported bit depth.
pub open spec fn apply_fmt(w: SpecWav, data: Seq<u8>) -> WavOutcome {
    if data.len() < 2 {
        WavOutcome::ShortFormat
    } else {
        match spec_format_code(le16(data[0], data[1]) as u16) {
            Err(e) => WavOutcome::Failed(SpecWavError::FormatCodeError(e)),
            Ok(fc) => if data.len() < 16 {
                WavOutcome::ShortFormat
            } else if !supported_bits(le16(data[14], data[15]) as u16) {
                WavOutcome::Failed(SpecWavError::UnsupportedBits { found_bits: le16(data[14], data[15]) as u16 })
            } else {
                WavOutcome::Read(SpecWav {
                    format_code: fc,
                    sample_rate: le32(data[4], data[5], data[6], data[7]) as u32,
                    channels: le16(data[2], data[3]) as u16,
                    bits: le16(data[14], data[15]) as u16,
                    samples: w.samples,
                })
            },
        }
    }
}

/// Reading a data chunk's payload into `w` with the format and bit depth read so far.
pub open spec fn apply_data(w: SpecWav, data: Seq<u8>) -> WavOutcome {
    match decode_samples(w.bits, w.format_code, data) {
        Ok(s) => WavOutcome::Read(SpecWav { samples: s, ..w }),
        Err(e) => WavOutcome::Failed(e),
    }
}

/// Reading one child of the `WAVE` root: `fmt ` and `data` chunks are read, anything
/// else is passed over.
pub open spec fn apply_chunk(w: SpecWav, c: SpecChunk) -> WavOutcome {
    match c {
        SpecChunk::Chunk { four_cc, data } => if four_cc == tag_fmt() {
            apply_fmt(w, data)
        } else if four_cc == tag_data() {
            apply_data(w, data)
        } else {
            WavOutcome::Read(w)
        },
        _ => WavOutcome::Read(w),
    }
}

/// Reading the children `cs` of the `WAVE` root in order, from `w` on, up to the first
/// one that does not end in `Read`.
pub open spec fn apply_chunks(cs: Seq<SpecChunk>, w: SpecWav) -> WavOutcome
    decreases cs.len(),
{
    if cs.len() == 0 {
        WavOutcome::Read(w)
    } else {
        match apply_chunk(w, cs[0]) {
            WavOutcome::Read(w2) => apply_chunks(cs.subrange(1, cs.len() as int), w2),
            other => other,
        }
    }
}

/// Reading a WAV file from its bytes: a `RIFF` root with form type `WAVE`, whose children
/// are read from the default content on.
pub open spec fn spec_read(bytes: Seq<u8>) -> WavOutcome {
    match spec_parse(bytes) {
        Err(e) => WavOutcome::Failed(SpecWavError::ChunkError(e)),
        Ok(root) => match root {
            SpecChunk::Riff { four_cc, chunks } => if four_cc == tag_wave() {
                apply_chunks(chunks, default_wav())
            } else {
                WavOutcome::Failed(SpecWavError::InvalidWave { actual: four_cc })
            },
            _ => WavOutcome::Failed(SpecWavError::InvalidRiffChunk { actual: root }),
        },
    }
}

/// `r` is what `o` describes: nothing for a short format chunk, else the content read
/// or the error.
pub open spec fn outcome_matches(r: Option<Result<Wav, WavError>>, o: WavOutcome) -> bool {
    match o {
        WavOutcome::ShortFormat => r is None,
        WavOutcome::Read(w) => r matches Some(Ok(x)) && x@ == w,
        WavOutcome::Failed(e) => r matches Some(Err(x)) && x@ == e,
    }
}

/// Reads the format code (bytes 0-1) of a format chunk's payload into `wav`.
pub fn parse_format_code(wav: &mut Wav, data: &[u8]) -> (r: Result<(), WavError>)
    requires
        data@.len() >= 2,
    ensures
        match spec_format_code(le16(data@[0], data@[1]) as u16) {
            Ok(fc) => r is Ok && final(wav)@ == (SpecWav { format_code: fc, ..old(wav)@ }),
            Err(e) => r matches Err(x) && x@ == SpecWavError::FormatCodeError(e) && final(wav)@ == old(wav)@,
        },
{
    let format_code_raw = read_u16_le(data, 0);
    match FormatCode::new(format_code_raw) {
        Ok(fc) => {
            wav.format_code = fc;
            Ok(())
        },
        Err(e) => Err(WavError::FormatCodeError(e)),
    }
}

/// Reads the sample rate (bytes 4-7) of a format chunk's payload into `wav`.
pub fn parse_sample_rate(wav: &mut Wav, data: &[u8])
    requires
        data@.len() >= 8,
    ensures
        final(wav)@ == (SpecWav { sample_rate: le32(data@[4], data@[5], data@[6], data@[7]) as u32, ..old(wav)@ }),
{
    let sample_rate = read_u32_le(data, 4);
    wav.sample_rate = SampleRate::from(sample_rate);
}

/// Reads the channel count (bytes 2-3) of a format chunk's payload into `wav`.
pub fn parse_channels(wav: &mut Wav, data: &[u8])
    requires
        data@.len() >= 4,
    ensures
        final(wav)@ == (SpecWav { channels: le16(data@[2], data@[3]) as u16, ..old(wav)@ }),
{
    let channels = read_u16_le(data, 2);
    wav.channels = Channels::from(channels);
}

/// The bits-per-sample field of a format chunk's payload (bytes 14-15).
pub open spec fn bits_field(data: Seq<u8>) -> u16 {
    le16(data[14], data[15]) as u16
}

/// Reads the bits per sample (bytes 14-15) of a format chunk's payload into `wav`; only
/// 8, 16, 24, 32 and 64 are taken.
pub fn parse_bits(wav: &mut Wav, data: &[u8]) -> (r: Result<(), WavError>)
    requires
        data@.len() >= 16,
    ensures
        supported_bits(bits_field(data@)) ==> r is Ok,
        supported_bits(bits_field(data@)) ==> final(wav)@ == (SpecWav { bits: bits_field(data@), ..old(wav)@ }),
        !supported_bits(bits_field(data@)) ==> final(wav)@ == old(wav)@,
        !supported_bits(bits_field(data@)) ==> (r matches Err(x) && x@ == (SpecWavError::UnsupportedBits {
            found_bits: bits_field(data@),
        })),
{
    let bits = read_u16_le(data, 14);
    if bits == 8 || bits == 16 || bits == 24 || bits == 32 || bits == 64 {
        wav.bits = bits;
    } else {
        return Err(WavError::UnsupportedBits { found_bits: bits });
    }
    Ok(())
}

proof fn lemma_apply_chunks_step(cs: Seq<SpecChunk>, i: int, w: SpecWav)
    requires
        0 <= i < cs.len(),
    ensures
        apply_chunks(cs.subrange(i, cs.len() as int), w) == match apply_chunk(w, cs[i]) {
            WavOutcome::Read(w2) => apply_chunks(cs.subrange(i + 1, cs.len() as int), w2),
            other => other,
        },
{
    let rest = cs.subrange(i, cs.len() as int);
    assert(rest[0] == cs[i]);
    assert(rest.subrange(1, rest.len() as int) =~= cs.subrange(i + 1, cs.len() as int));
}

/// Reads the children of a `WAVE` root in order into a `Wav`; `None` where a format chunk
/// is too short for the fields read from it.
pub fn parse_chunk(chunks: &Vec<Chunk>) -> (r: Option<Result<Wav, WavError>>)
    ensures
        outcome_matches(r, apply_chunks(chunks_view(chunks@), default_wav())),
{
    let ghost cv = chunks_view(chunks@);
    let ghost total = apply_chunks(cv, default_wav());
    let mut wav = Wav::default();
    let mut i: usize = 0;
    proof {
        crate::riff::lemma_chunks_view_index(chunks@);
        assert(cv.subrange(0, cv.len() as int) =~= cv);
    }
    while i < chunks.len()
        invariant
            0 <= i <= chunks@.len(),
            cv == chunks_view(chunks@),
            cv.len() == chunks@.len(),
            forall|j: int| 0 <= j < chunks@.len() ==> #[trigger] cv[j] == chunks@[j]@,
            total == apply_chunks(cv, default_wav()),
            apply_chunks(cv.subrange(i as int, cv.len() as int), wav@) == total,
        decreases chunks@.len() - i,
    {
        proof {
            lemma_apply_chunks_step(cv, i as int, wav@);
        }
        match &chunks[i] {
            Chunk::Chunk { four_cc, data } => {
                let b = four_cc.as_bytes();
                let is_fmt = b[0] == 0x66 && b[1] == 0x6d && b[2] == 0x74 && b[3] == 0x20;
                let is_data = b[0] == 0x64 && b[1] == 0x61 && b[2] == 0x74 && b[3] == 0x61;
                proof {
                    assert(is_fmt <==> b@ =~= tag_fmt());
                    assert(is_data <==> b@ =~= tag_data());
                }
                if is_fmt {
                    if data.len() < 2 {
                        return None;
                    }
                    if let Err(e) = parse_format_code(&mut wav, data.as_slice()) {
                        return Some(Err(e));
                    }
                    if data.len() < 16 {
                        return None;
                    }
                    parse_sample_rate(&mut wav, data.as_slice());
                    parse_channels(&mut wav, data.as_slice());
                    if let Err(e) = parse_bits(&mut wav, data.as_slice()) {
                        return Some(Err(e));
                    }
                } else if is_data {
                    if let Err(e) = parse_samples(&mut wav, data.as_slice()) {
                        return Some(Err(e));
                    }
                }
            },
            _ => {},
        }
        i = i + 1;
    }
    proof {
        assert(cv.subrange(i as int, cv.len() as int) =~= Seq::<SpecChunk>::empty());
    }
    Some(Ok(wav))
}

impl Wav {
    /// Reads a WAV file from its bytes, or says `None` where a format chunk is too short
    /// for the fields read from it.
    pub fn read_checked(bytes: &[u8]) -> (r: Option<Result<Wav, WavError>>)
        ensures
            outcome_matches(r, spec_read(bytes@)),
    {
        let root_chunk = match Chunk::try_from(bytes) {
            Ok(c) => c,
            Err(e) => {
                return Some(Err(WavError::ChunkError(e)));
            },
        };
        match root_chunk {
            Chunk::Riff { four_cc, chunks } => {
                let b = four_cc.as_bytes();
                let is_wave = b[0] == 0x57 && b[1] == 0x41 && b[2] == 0x56 && b[3] == 0x45;
                proof {
                    assert(is_wave <==> b@ =~= tag_wave());
                }
                if !is_wave {
                    return Some(Err(WavError::InvalidWave { actual: four_cc }));
                }
                parse_chunk(&chunks)
            },
            other => Some(Err(WavError::InvalidRiffChunk { actual: other })),
        }
    }

    /// Reads a WAV file from its bytes: a `RIFF` root with form type `WAVE` whose `fmt `
    /// chunks give the format, rate, channels and bit depth and whose `data` chunks give
    /// the samples.
    pub fn read(bytes: &[u8]) -> (r: Result<Wav, WavError>)
        requires
            !(spec_read(bytes@) is ShortFormat),
        ensures
            outcome_matches(Some(r), spec_read(bytes@)),
    {
        match Wav::read_checked(bytes) {
            Some(r) => r,
            None => {
                proof {
                    assert(false);
                }
                Err(WavError::UnsupportedBits { found_bits: 0 })
            },
        }
    }
}

/// `c` is no `fmt ` chunk, or one holding the 16 bytes its fields are read from.
pub open spec fn format_chunk_complete(c: SpecChunk) -> bool {
    match c {
        SpecChunk::Chunk { four_cc, data } => four_cc == tag_fmt() ==> data.len() >= 16,
        _ => true,
    }
}

/// Every `fmt ` chunk among `cs` holds the 16 bytes its fields are read from.
pub open spec fn format_chunks_complete(cs: Seq<SpecChunk>) -> bool {
    forall|i: int| 0 <= i < cs.len() ==> #[trigger] format_chunk_complete(cs[i])
}

/// Reading the children of a `WAVE` root ends with content or an error, never on a
/// short format chunk, when every `fmt ` chunk holds its 16 bytes of fields.
pub proof fn lemma_complete_format_chunks_read(cs: Seq<SpecChunk>, w: SpecWav)
    requires
        format_chunks_complete(cs),
    ensures
        !(apply_chunks(cs, w) is ShortFormat),
    decreases cs.len(),
{
    if cs.len() > 0 {
        let rest = cs.subrange(1, cs.len() as int);
        assert(format_chunks_complete(rest)) by {
            assert forall|i: int| 0 <= i < rest.len() implies #[trigger] format_chunk_complete(rest[i]) by {
                assert(rest[i] == cs[i + 1]);
                assert(format_chunk_complete(cs[i + 1]));
            }
        }
        assert(format_chunk_complete(cs[0]));
        match apply_chunk(w, cs[0]) {
            WavOutcome::Read(w2) => lemma_complete_format_chunks_read(rest, w2),
            _ => {},
        }
    }
}

/// The little-endian value of the `n` bytes of `data` from `at` on.
pub open spec fn le_uint(data: Seq<u8>, at: int, n: nat) -> nat
    decreases n,
{
    if n == 0 {
        0
    } else {
        data[at] as nat + 256 * le_uint(data, at + 1, (n - 1) as nat)
    }
}

/// 8-bit PCM data decodes to one sample per byte, sample `k` holding byte `k`.
pub proof fn lemma_decode_pcm8(data: Seq<u8>)
    ensures
        decode_samples(8, FormatCode::PCM, data) matches Ok(s) && s.len() == data.len()
            && forall|k: int| 0 <= k < s.len() ==> #[trigger] s[k] == Sample::U8(data[k]),
{
}

/// 16-bit PCM data decodes to one sample per two bytes (a last odd byte is left out),
/// sample `k` being the two's-complement value of bytes `2k..2k+2` read little-endian.
pub proof fn lemma_decode_pcm16(data: Seq<u8>)
    ensures
        decode_samples(16, FormatCode::PCM, data) matches Ok(s) && s.len() == data.len() / 2
            && forall|k: int| #![trigger s[k]] 0 <= k < s.len() ==> (s[k] matches Sample::I16(x)
                && (x + 0x1_0000) % 0x1_0000 == le_uint(data, 2 * k, 2)),
{
    reveal_with_fuel(le_uint, 3);
    let s = decode_samples(16, FormatCode::PCM, data)->Ok_0;
    assert forall|k: int| #![trigger s[k]] 0 <= k < s.len() implies (s[k] matches Sample::I16(x)
        && (x + 0x1_0000) % 0x1_0000 == le_uint(data, 2 * k, 2)) by {
        lemma_sample_index_bounds(16, data.len(), k);
        let u = le16(data[2 * k], data[2 * k + 1]);
        assert(le_uint(data, 2 * k, 2) == u);
    }
}

/// 24-bit PCM data decodes to one sample per three bytes (a partial last one is left out),
/// sample `k` being the two's-complement value of bytes `3k..3k+3` read little-endian,
/// sign-extended.
pub proof fn lemma_decode_pcm24(data: Seq<u8>)
    ensures
        decode_samples(24, FormatCode::PCM, data) matches Ok(s) && s.len() == data.len() / 3
            && forall|k: int| #![trigger s[k]] 0 <= k < s.len() ==> (s[k] matches Sample::I24(x)
                && -0x80_0000 <= x < 0x80_0000 && (x + 0x100_0000) % 0x100_0000 == le_uint(data, 3 * k, 3)),
{
    reveal_with_fuel(le_uint, 4);
    let s = decode_samples(24, FormatCode::PCM, data)->Ok_0;
    assert forall|k: int| #![trigger s[k]] 0 <= k < s.len() implies (s[k] matches Sample::I24(x)
        && -0x80_0000 <= x < 0x80_0000 && (x + 0x100_0000) % 0x100_0000 == le_uint(data, 3 * k, 3)) by {
        lemma_sample_index_bounds(24, data.len(), k);
        let u = data[3 * k] + data[3 * k + 1] * 256 + data[3 * k + 2] * 65536;
        assert(le_uint(data, 3 * k, 3) == u);
    }
}

/// 32-bit PCM data decodes to one sample per four bytes (a partial last one is left out),
/// sample `k` being the two's-complement value of bytes `4k..4k+4` read little-endian.
pub proof fn lemma_decode_pcm32(data: Seq<u8>)
    ensures
        decode_samples(32, FormatCode::PCM, data) matches Ok(s) && s.len() == data.len() / 4
            && forall|k: int| #![trigger s[k]] 0 <= k < s.len() ==> (s[k] matches Sample::I32(x)
                && (x + 0x1_0000_0000) % 0x1_0000_0000 == le_uint(data, 4 * k, 4)),
{
    reveal_with_fuel(le_uint, 5);
    let s = decode_samples(32, FormatCode::PCM, data)->Ok_0;
    assert forall|k: int| #![trigger s[k]] 0 <= k < s.len() implies (s[k] matches Sample::I32(x)
        && (x + 0x1_0000_0000) % 0x1_0000_0000 == le_uint(data, 4 * k, 4)) by {
        lemma_sample_index_bounds(32, data.len(), k);
        let u = le32(data[4 * k], data[4 * k + 1], data[4 * k + 2], data[4 * k + 3]);
        assert(le_uint(data, 4 * k, 4) == u);
    }
}

/// 32-bit IEEE-float data decodes to one sample per four bytes (a partial last one is
/// left out), sample `k` holding the bits of bytes `4k..4k+4` read little-endian.
pub proof fn lemma_decode_float32(data: Seq<u8>)
    ensures
        decode_samples(32, FormatCode::IEEEFloat, data) matches Ok(s) && s.len() == data.len() / 4
            && forall|k: int| 0 <= k < s.len() ==> #[trigger] s[k] == Sample::F32(le_uint(data, 4 * k, 4) as u32),
{
    reveal_with_fuel(le_uint, 5);
    let s = decode_samples(32, FormatCode::IEEEFloat, data)->Ok_0;
    assert forall|k: int| 0 <= k < s.len() implies #[trigger] s[k] == Sample::F32(le_uint(data, 4 * k, 4) as u32) by {
        lemma_sample_index_bounds(32, data.len(), k);
        assert(le_uint(data, 4 * k, 4) == le32(data[4 * k], data[4 * k + 1], data[4 * k + 2], data[4 * k + 3]));
    }
}

/// 64-bit IEEE-float data decodes to one sample per eight bytes (a partial last one is
/// left out), sample `k` holding the bits of bytes `8k..8k+8` read little-endian.
pub proof fn lemma_decode_float64(data: Seq<u8>)
    ensures
        decode_samples(64, FormatCode::IEEEFloat, data) matches Ok(s) && s.len() == data.len() / 8
            && forall|k: int| 0 <= k < s.len() ==> #[trigger] s[k] == Sample::F64(le_uint(data, 8 * k, 8) as u64),
{
    reveal_with_fuel(le_uint, 9);
    let s = decode_samples(64, FormatCode::IEEEFloat, data)->Ok_0;
    assert forall|k: int| 0 <= k < s.len() implies #[trigger] s[k] == Sample::F64(le_uint(data, 8 * k, 8) as u64) by {
        lemma_sample_index_bounds(64, data.len(), k);
        assert(le_uint(data, 8 * k, 8) == le32(data[8 * k], data[8 * k + 1], data[8 * k + 2], data[8 * k + 3])
            + le32(data[8 * k + 4], data[8 * k + 5], data[8 * k + 6], data[8 * k + 7]) * 0x1_0000_0000);
    }
}

/// The payload of `c` when it is a `fmt ` chunk.
pub open spec fn format_payload(c: SpecChunk) -> Option<Seq<u8>> {
    match c {
        SpecChunk::Chunk { four_cc, data } => if four_cc == tag_fmt() {
            Some(data)
        } else {
            None
        },
        _ => None,
    }
}

/// The payload of the last `fmt ` chunk among `cs`, if there is one.
pub open spec fn last_format_payload(cs: Seq<SpecChunk>) -> Option<Seq<u8>>
    decreases cs.len(),
{
    if cs.len() == 0 {
        None
    } else {
        match last_format_payload(cs.subrange(1, cs.len() as int)) {
            Some(p) => Some(p),
            None => format_payload(cs[0]),
        }
    }
}

/// `w` has the format, channel count, sample rate and bit depth that the format payload
/// `p` announces, each read little-endian: format code (bytes 0-1) 1 for PCM or 3 for IEEE
/// float, channel count (bytes 2-3), sample rate (bytes 4-7), bits per sample (bytes 14-15).
pub open spec fn header_from(w: SpecWav, p: Seq<u8>) -> bool {
    &&& p.len() >= 16
    &&& (le_uint(p, 0, 2) == 1 && w.format_code == FormatCode::PCM) || (le_uint(p, 0, 2) == 3
        && w.format_code == FormatCode::IEEEFloat)
    &&& w.channels == le_uint(p, 2, 2)
    &&& w.sample_rate == le_uint(p, 4, 4)
    &&& w.bits == le_uint(p, 14, 2)
}

/// `a` and `b` have the same format, sample rate, channel count and bit depth.
pub open spec fn same_header(a: SpecWav, b: SpecWav) -> bool {
    &&& a.format_code == b.format_code
    &&& a.sample_rate == b.sample_rate
    &&& a.channels == b.channels
    &&& a.bits == b.bits
}

proof fn lemma_chunk_header(w: SpecWav, c: SpecChunk)
    ensures
        apply_chunk(w, c) matches WavOutcome::Read(r) ==> match format_payload(c) {
            Some(p) => header_from(r, p),
            None => same_header(r, w),
        },
{
    reveal_with_fuel(le_uint, 5);
}

/// Reading the children of a `WAVE` root takes the format, channel count, sample rate and
/// bit depth from the last `fmt ` chunk among them, byte for byte, and keeps those of `w`
/// when there is none; `data` and other chunks leave them as they are.
pub proof fn lemma_header_from_last_format_chunk(cs: Seq<SpecChunk>, w: SpecWav)
    ensures
        apply_chunks(cs, w) matches WavOutcome::Read(r) ==> match last_format_payload(cs) {
            Some(p) => header_from(r, p),
            None => same_header(r, w),
        },
    decreases cs.len(),
{
    if cs.len() > 0 {
        lemma_chunk_header(w, cs[0]);
        if let WavOutcome::Read(w2) = apply_chunk(w, cs[0]) {
            lemma_header_from_last_format_chunk(cs.subrange(1, cs.len() as int), w2);
        }
    }
}

/// A WAV file that reads is a `RIFF` root of form type `WAVE`, and what is read has the
/// format, channel count, sample rate and bit depth of its last `fmt ` chunk, byte for
/// byte; with no `fmt ` chunk they are PCM and 0.
pub proof fn lemma_read_header(bytes: Seq<u8>)
    ensures
        spec_read(bytes) matches WavOutcome::Read(r) ==> (spec_parse(bytes) matches Ok(root) && root is Riff
            && root->Riff_four_cc == tag_wave() && match last_format_payload(root->Riff_chunks) {
                Some(p) => header_from(r, p),
                None => same_header(r, default_wav()),
            }),
{
    if let Ok(root) = spec_parse(bytes) {
        if let SpecChunk::Riff { four_cc, chunks } = root {
            lemma_header_from_last_format_chunk(chunks, default_wav());
        }
    }
}

/// A `fmt ` chunk of at least 16 bytes with format code 1 or 3 and 8, 16, 24, 32 or 64
/// bits per sample is read whatever channel count and sample rate it holds: it sets the
/// header it announces and keeps the samples.
pub proof fn lemma_format_chunk_read(w: SpecWav, p: Seq<u8>)
    requires
        p.len() >= 16,
        le_uint(p, 0, 2) == 1 || le_uint(p, 0, 2) == 3,
        le_uint(p, 14, 2) == 8 || le_uint(p, 14, 2) == 16 || le_uint(p, 14, 2) == 24 || le_uint(p, 14, 2) == 32
            || le_uint(p, 14, 2) == 64,
    ensures
        apply_chunk(w, SpecChunk::Chunk { four_cc: tag_fmt(), data: p }) matches WavOutcome::Read(r)
            && header_from(r, p) && r.samples == w.samples,
{
    reveal_with_fuel(le_uint, 5);
}

/// Decoding refuses a bit depth other than 8, 16, 24, 32 and 64, and refuses to read any
/// sample of 8, 16 or 24 bits as IEEE float or of 64 bits as PCM; data too short for one
/// sample of a supported depth decodes to no samples, in either format.
pub proof fn lemma_decode_refusals(bits: u16, fc: FormatCode, data: Seq<u8>)
    ensures
        !(bits == 8 || bits == 16 || bits == 24 || bits == 32 || bits == 64) ==> decode_samples(bits, fc, data)
            == Err::<Seq<Sample>, SpecWavError>(SpecWavError::UnsupportedBits { found_bits: bits }),
        (bits == 8 && data.len() >= 1 || bits == 16 && data.len() >= 2 || bits == 24 && data.len() >= 3)
            && fc == FormatCode::IEEEFloat ==> decode_samples(bits, fc, data) == Err::<Seq<Sample>, SpecWavError>(
            SpecWavError::UnsupportedFormatCode { bits, format_code: fc, expected: seq![FormatCode::PCM] }),
        bits == 64 && data.len() >= 8 && fc == FormatCode::PCM ==> decode_samples(bits, fc, data) == Err::<
            Seq<Sample>,
            SpecWavError,
        >(SpecWavError::UnsupportedFormatCode { bits, format_code: fc, expected: seq![FormatCode::IEEEFloat] }),
        (bits == 8 && data.len() < 1 || bits == 16 && data.len() < 2 || bits == 24 && data.len() < 3 || bits == 32
            && data.len() < 4 || bits == 64 && data.len() < 8) ==> decode_samples(bits, fc, data) == Ok::<
            Seq<Sample>,
            SpecWavError,
        >(Seq::empty()),
{
}

/// A `fmt ` chunk is refused for a format code other than 1 and 3 (bytes 0-1), and, when
/// it holds 16 bytes and a good format code, for a bit depth (bytes 14-15) other than 8,
/// 16, 24, 32 and 64; a chunk shorter than what is read from it ends reading unfinished.
pub proof fn lemma_format_chunk_refused(w: SpecWav, p: Seq<u8>)
    ensures
        p.len() < 2 ==> apply_chunk(w, SpecChunk::Chunk { four_cc: tag_fmt(), data: p }) is ShortFormat,
        p.len() >= 2 && le_uint(p, 0, 2) != 1 && le_uint(p, 0, 2) != 3 ==> apply_chunk(
            w,
            SpecChunk::Chunk { four_cc: tag_fmt(), data: p },
        ) == WavOutcome::Failed(SpecWavError::FormatCodeError(
            FormatCodeError::InvalidCode { actual: le_uint(p, 0, 2) as u16 },
        )),
        2 <= p.len() < 16 && (le_uint(p, 0, 2) == 1 || le_uint(p, 0, 2) == 3) ==> apply_chunk(
            w,
            SpecChunk::Chunk { four_cc: tag_fmt(), data: p },
        ) is ShortFormat,
        p.len() >= 16 && (le_uint(p, 0, 2) == 1 || le_uint(p, 0, 2) == 3) && !(le_uint(p, 14, 2) == 8 || le_uint(p, 14, 2)
            == 16 || le_uint(p, 14, 2) == 24 || le_uint(p, 14, 2) == 32 || le_uint(p, 14, 2) == 64) ==> apply_chunk(
            w,
            SpecChunk::Chunk { four_cc: tag_fmt(), data: p },
        ) == WavOutcome::Failed(SpecWavError::UnsupportedBits { found_bits: le_uint(p, 14, 2) as u16 }),
{
    reveal_with_fuel(le_uint, 3);
}

} // verus!
