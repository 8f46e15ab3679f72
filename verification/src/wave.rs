use vstd::prelude::*;
use vstd::slice::slice_to_vec;
use crate::wav::{FormatCode, WavError};

verus! {

/// A waveform: interleaved samples of any copyable type, with its sample rate and
/// channel count.
#[derive(Debug, PartialEq, Clone)]
pub struct Wave<S> {
    pub samples: Vec<S>,
    pub sample_rate: u32,
    pub channels: u16,
}

impl<S> Default for Wave<S> {
    fn default() -> (r: Self)
        ensures
            r.samples@ == Seq::<S>::empty(),
            r.sample_rate == 0,
            r.channels == 0,
    {
        Wave { samples: Vec::new(), sample_rate: 0, channels: 0 }
    }
}

/// How a waveform is to be written.
#[derive(Debug, PartialEq, Eq, Clone, Copy)]
pub struct WaveWriteOptions {
    file_format: FileFormat,
}

/// The file formats a waveform can be written in.
#[derive(Debug, PartialEq, Eq, Clone, Copy, Structural)]
pub enum FileFormat {
    /// A WAV file with the given sample format and bits per sample.
    Wav { format_code: FormatCode, bits: u16 },
}

impl FileFormat {
    /// The WAV format with `format_code` samples of `bits` bits.
    pub fn wav(format_code: FormatCode, bits: u16) -> (r: Self)
        ensures
            r == (FileFormat::Wav { format_code, bits }),
    {
        Self::Wav { format_code, bits }
    }
}

impl Default for FileFormat {
    fn default() -> (r: Self)
        ensures
            r == (FileFormat::Wav { format_code: FormatCode::PCM, bits: 16 }),
    {
        Self::Wav { format_code: FormatCode::PCM, bits: 16 }
    }
}

impl View for WaveWriteOptions {
    type V = FileFormat;

    closed spec fn view(&self) -> FileFormat {
        self.file_format
    }
}

impl WaveWriteOptions {
    /// Options that write in `file_format`.
    pub fn new(file_format: FileFormat) -> (r: Self)
        ensures
            r@ == file_format,
    {
        Self { file_format }
    }
}

impl Default for WaveWriteOptions {
    fn default() -> (r: Self)
        ensures
            r@ == (FileFormat::Wav { format_code: FormatCode::PCM, bits: 16 }),
    {
        Self { file_format: FileFormat::default() }
    }
}

/// Options for writing a waveform.
pub trait WriteOptions {
    /// The file format to write in.
    fn file_format(&self) -> FileFormat;
}

impl WriteOptions for WaveWriteOptions {
    fn file_format(&self) -> (r: FileFormat)
        ensures
            r == self@,
    {
        self.file_format
    }
}

/// Errors when creating or combining waveforms.
#[derive(Debug)]
pub enum WaveError {
    /// The waveform's parameters are invalid.
    Creation(CreationError),
    /// The waveforms do not fit the operation.
    Data(DataError),
    /// The WAV file could not be read.
    Wav(WavError),
}

/// Errors when creating a waveform.
#[derive(Debug, PartialEq, Eq, Clone, Copy, Structural)]
pub enum CreationError {
    /// The sample rate is 0.
    InvalidSampleRate(u32),
    /// The channel count is 0.
    InvalidChannels(u16),
    /// There are fewer samples than channels.
    TooFewSamples { required: usize, actual: usize },
    /// The file is in no format that can be read.
    UnsupportedFileFormat,
}

/// Errors when an operation does not fit the waveforms it is given.
#[derive(Debug, PartialEq, Eq, Clone, Copy, Structural)]
pub enum DataError {
    SampleRateMismatch { left: u32, right: u32 },
    LengthMismatch { left: usize, right: usize },
    ChannelMismatch { left: u16, right: u16 },
    EmptySamples,
    TooShortSamples,
    TooShortSeparatePoint,
}

/// The error creating a waveform of `len` samples at `sample_rate` with `channels`
/// channels gives, if any: a zero rate, then zero channels, then fewer samples than channels.
pub open spec fn creation_error(len: nat, sample_rate: u32, channels: u16) -> Option<CreationError> {
    if sample_rate == 0 {
        Some(CreationError::InvalidSampleRate(sample_rate))
    } else if channels == 0 {
        Some(CreationError::InvalidChannels(channels))
    } else if channels > len {
        Some(CreationError::TooFewSamples { required: channels as usize, actual: len as usize })
    } else {
        None
    }
}

/// The outcome of creating a waveform from `samples`, `sample_rate` and `channels`.
pub open spec fn creation_ok<S>(r: Result<Wave<S>, WaveError>, samples: Seq<S>, sample_rate: u32, channels: u16) -> bool {
    match creation_error(samples.len(), sample_rate, channels) {
        Some(e) => r == Err::<Wave<S>, WaveError>(WaveError::Creation(e)),
        None => r matches Ok(w) && w.samples@ == samples && w.sample_rate == sample_rate && w.channels == channels,
    }
}

/// Refuses a sample rate of 0.
pub fn ensure_valid_sample_rate(sample_rate: u32) -> (r: Result<(), WaveError>)
    ensures
        sample_rate == 0 ==> r == Err::<(), WaveError>(WaveError::Creation(CreationError::InvalidSampleRate(sample_rate))),
        sample_rate != 0 ==> r is Ok,
{
    if sample_rate == 0 {
        return Err(WaveError::Creation(CreationError::InvalidSampleRate(sample_rate)));
    }
    Ok(())
}

/// Refuses a channel count of 0.
pub fn ensure_valid_channels(channels: u16) -> (r: Result<(), WaveError>)
    ensures
        channels == 0 ==> r == Err::<(), WaveError>(WaveError::Creation(CreationError::InvalidChannels(channels))),
        channels != 0 ==> r is Ok,
{
    if channels == 0 {
        return Err(WaveError::Creation(CreationError::InvalidChannels(channels)));
    }
    Ok(())
}

/// Refuses fewer samples than channels; the sample count need not be a multiple of the
/// channel count.
pub fn ensure_sufficient_samples<S>(channels: u16, samples: &[S]) -> (r: Result<(), WaveError>)
    ensures
        channels > samples@.len() ==> r == Err::<(), WaveError>(WaveError::Creation(CreationError::TooFewSamples {
            required: channels as usize,
            actual: samples@.len() as usize,
        })),
        channels <= samples@.len() ==> r is Ok,
{
    if (channels as usize) > samples.len() {
        return Err(WaveError::Creation(CreationError::TooFewSamples { actual: samples.len(), required: channels as usize }));
    }
    Ok(())
}

impl<S: Copy> Wave<S> {
    /// A waveform holding a copy of `samples`; the sample rate and the channel count must
    /// not be 0, and there must be at least as many samples as channels.
    pub fn new(samples: &[S], sample_rate: u32, channels: u16) -> (r: Result<Self, WaveError>)
        ensures
            creation_ok(r, samples@, sample_rate, channels),
    {
        ensure_valid_sample_rate(sample_rate)?;
        ensure_valid_channels(channels)?;
        ensure_sufficient_samples(channels, samples)?;
        Ok(Self { samples: slice_to_vec(samples), sample_rate, channels })
    }
}

/// Refuses a waveform without samples.
pub fn validate_not_empty<S>(wave: &Wave<S>) -> (r: Result<(), WaveError>)
    ensures
        wave.samples@.len() == 0 ==> r == Err::<(), WaveError>(WaveError::Data(DataError::EmptySamples)),
        wave.samples@.len() != 0 ==> r is Ok,
{
    if wave.samples.len() == 0 {
        return Err(WaveError::Data(DataError::EmptySamples));
    }
    Ok(())
}

/// Refuses a separation point of 0.
pub fn validate_point_is_not_zero(separate_point: usize) -> (r: Result<(), WaveError>)
    ensures
        separate_point == 0 ==> r == Err::<(), WaveError>(WaveError::Data(DataError::TooShortSeparatePoint)),
        separate_point != 0 ==> r is Ok,
{
    if separate_point == 0 {
        return Err(WaveError::Data(DataError::TooShortSeparatePoint));
    }
    Ok(())
}

/// Refuses a separation point past the last sample.
pub fn validate_samples_len_is_bigger_than_point<S>(wave: &Wave<S>, separate_point: usize) -> (r: Result<(), WaveError>)
    ensures
        wave.samples@.len() < separate_point ==> r == Err::<(), WaveError>(WaveError::Data(DataError::TooShortSamples)),
        wave.samples@.len() >= separate_point ==> r is Ok,
{
    if wave.samples.len() < separate_point {
        return Err(WaveError::Data(DataError::TooShortSamples));
    }
    Ok(())
}

/// Refuses two waveforms with different sample counts.
pub fn validate_equal_lengths<S>(left: &Wave<S>, right: &Wave<S>) -> (r: Result<(), WaveError>)
    ensures
        left.samples@.len() != right.samples@.len() ==> r == Err::<(), WaveError>(WaveError::Data(DataError::LengthMismatch {
            left: left.samples@.len() as usize,
            right: right.samples@.len() as usize,
        })),
        left.samples@.len() == right.samples@.len() ==> r is Ok,
{
    if left.samples.len() != right.samples.len() {
        return Err(WaveError::Data(DataError::LengthMismatch { left: left.samples.len(), right: right.samples.len() }));
    }
    Ok(())
}

/// Refuses two waveforms with different sample rates.
pub fn validate_equal_sample_rates<S>(left: &Wave<S>, right: &Wave<S>) -> (r: Result<(), WaveError>)
    ensures
        left.sample_rate != right.sample_rate ==> r == Err::<(), WaveError>(WaveError::Data(DataError::SampleRateMismatch {
            left: left.sample_rate,
            right: right.sample_rate,
        })),
        left.sample_rate == right.sample_rate ==> r is Ok,
{
    if left.sample_rate != right.sample_rate {
        return Err(WaveError::Data(DataError::SampleRateMismatch { left: left.sample_rate, right: right.sample_rate }));
    }
    Ok(())
}

/// Refuses two waveforms with different channel counts.
pub fn validate_equal_channels<S>(left: &Wave<S>, right: &Wave<S>) -> (r: Result<(), WaveError>)
    ensures
        left.channels != right.channels ==> r == Err::<(), WaveError>(WaveError::Data(DataError::ChannelMismatch {
            left: left.channels,
            right: right.channels,
        })),
        left.channels == right.channels ==> r is Ok,
{
    if left.channels != right.channels {
        return Err(WaveError::Data(DataError::ChannelMismatch { left: left.channels, right: right.channels }));
    }
    Ok(())
}

/// The error mixing `left` with `right` gives, if any: differing sample rates, then
/// differing channel counts, then differing lengths, then no samples at all.
pub open spec fn mix_error<S>(left: Wave<S>, right: Wave<S>) -> Option<DataError> {
    if left.sample_rate != right.sample_rate {
        Some(DataError::SampleRateMismatch { left: left.sample_rate, right: right.sample_rate })
    } else if left.channels != right.channels {
        Some(DataError::ChannelMismatch { left: left.channels, right: right.channels })
    } else if left.samples@.len() != right.samples@.len() {
        Some(DataError::LengthMismatch { left: left.samples@.len() as usize, right: right.samples@.len() as usize })
    } else if left.samples@.len() == 0 {
        Some(DataError::EmptySamples)
    } else {
        None
    }
}

/// The error splitting `wave` at `point` gives before any part is created, if any: no
/// samples, then fewer samples than `point`, then a `point` of 0.
pub open spec fn separate_error<S>(wave: Wave<S>, point: usize) -> Option<DataError> {
    if wave.samples@.len() == 0 {
        Some(DataError::EmptySamples)
    } else if wave.samples@.len() < point {
        Some(DataError::TooShortSamples)
    } else if point == 0 {
        Some(DataError::TooShortSeparatePoint)
    } else {
        None
    }
}

impl<S: Copy> Wave<S> {
    /// The samples.
    pub fn samples(&self) -> (r: Vec<S>)
        ensures
            r@ == self.samples@,
    {
        slice_to_vec(self.samples.as_slice())
    }

    /// The sample rate.
    pub fn sample_rate(&self) -> (r: u32)
        ensures
            r == self.sample_rate,
    {
        self.sample_rate
    }

    /// The channel count.
    pub fn channels(&self) -> (r: u16)
        ensures
            r == self.channels,
    {
        self.channels
    }

    /// Combines this waveform with `other` sample by sample through `mixer_fn`; both must
    /// have the same sample rate, channel count and length, and hold at least one sample.
    pub fn mix<F: Fn(S, S) -> S>(&self, other: &Self, mixer_fn: F) -> (r: Result<Self, WaveError>)
        requires
            forall|a: S, b: S| call_requires(mixer_fn, (a, b)),
        ensures
            mix_error(*self, *other) matches Some(e) ==> r == Err::<Self, WaveError>(WaveError::Data(e)),
            mix_error(*self, *other) is None ==> (r matches Ok(w) && w.sample_rate == self.sample_rate
                && w.channels == self.channels && w.samples@.len() == self.samples@.len()
                && forall|i: int| 0 <= i < self.samples@.len() ==> call_ensures(
                    mixer_fn,
                    (self.samples@[i], other.samples@[i]),
                    #[trigger] w.samples@[i],
                )),
    {
        validate_equal_sample_rates(self, other)?;
        validate_equal_channels(self, other)?;
        validate_equal_lengths(self, other)?;
        validate_not_empty(self)?;

        let sample_rate = self.sample_rate;
        let channels = self.channels;
        let mut samples: Vec<S> = Vec::new();
        let mut i: usize = 0;
        while i < self.samples.len()
            invariant
                0 <= i <= self.samples@.len(),
                self.samples@.len() == other.samples@.len(),
                forall|a: S, b: S| call_requires(mixer_fn, (a, b)),
                samples@.len() == i,
                forall|j: int| 0 <= j < i ==> call_ensures(mixer_fn, (self.samples@[j], other.samples@[j]), #[trigger] samples@[j]),
            decreases self.samples@.len() - i,
        {
            let left = self.samples[i];
            let right = other.samples[i];
            let result = mixer_fn(left, right);
            samples.push(result);
            i = i + 1;
        }
        Ok(Wave { samples, sample_rate, channels })
    }

    /// Splits this waveform at `separate_point` into the samples before it and those from
    /// it on, each a waveform with this one's sample rate and channel count.
    pub fn separate(&self, separate_point: usize) -> (r: Result<(Self, Self), WaveError>)
        ensures
            separate_error(*self, separate_point) matches Some(e) ==> r == Err::<(Self, Self), WaveError>(WaveError::Data(e)),
            separate_error(*self, separate_point) is None ==> match creation_error(separate_point as nat, self.sample_rate, self.channels) {
                Some(e) => r == Err::<(Self, Self), WaveError>(WaveError::Creation(e)),
                None => match creation_error((self.samples@.len() - separate_point) as nat, self.sample_rate, self.channels) {
                    Some(e) => r == Err::<(Self, Self), WaveError>(WaveError::Creation(e)),
                    None => r matches Ok(parts) && parts.0.samples@ == self.samples@.take(separate_point as int)
                        && parts.1.samples@ == self.samples@.skip(separate_point as int)
                        && parts.0.sample_rate == self.sample_rate && parts.1.sample_rate == self.sample_rate
                        && parts.0.channels == self.channels && parts.1.channels == self.channels,
                },
            },
    {
        validate_not_empty(self)?;
        validate_samples_len_is_bigger_than_point(self, separate_point)?;
        validate_point_is_not_zero(separate_point)?;

        let initial_len = separate_point;
        let terminal_len = self.samples.len() - separate_point;
        let mut initial: Vec<S> = Vec::new();
        let mut terminal: Vec<S> = Vec::new();
        let mut i: usize = 0;
        while i < initial_len
            invariant
                0 <= i <= initial_len,
                initial_len <= self.samples@.len(),
                initial@ == self.samples@.take(i as int),
            decreases initial_len - i,
        {
            initial.push(self.samples[i]);
            i = i + 1;
            proof {
                assert(initial@ =~= self.samples@.take(i as int));
            }
        }
        let mut k: usize = 0;
        while k < terminal_len
            invariant
                0 <= k <= terminal_len,
                initial_len + terminal_len == self.samples@.len(),
                self.samples@.len() <= usize::MAX,
                terminal@ == self.samples@.subrange(initial_len as int, initial_len + k),
            decreases terminal_len - k,
        {
            terminal.push(self.samples[initial_len + k]);
            k = k + 1;
            proof {
                assert(terminal@ =~= self.samples@.subrange(initial_len as int, initial_len + k));
            }
        }
        proof {
            assert(terminal@ =~= self.samples@.skip(separate_point as int));
        }
        let first = Wave::new(initial.as_slice(), self.sample_rate, self.channels)?;
        let second = Wave::new(terminal.as_slice(), self.sample_rate, self.channels)?;
        Ok((first, second))
    }
}

/// Separating a waveform keeps every sample, in order: the two parts put together are
/// the waveform's samples, and the first part holds exactly `separate_point` of them.
pub proof fn lemma_separate_keeps_samples<S>(wave: Wave<S>, separate_point: usize, first: Wave<S>, second: Wave<S>)
    requires
        first.samples@ == wave.samples@.take(separate_point as int),
        second.samples@ == wave.samples@.skip(separate_point as int),
        separate_point <= wave.samples@.len(),
    ensures
        first.samples@ + second.samples@ == wave.samples@,
        first.samples@.len() == separate_point,
{
    assert(first.samples@ + second.samples@ =~= wave.samples@);
}

/// Creating a waveform succeeds, keeping the samples, sample rate and channel count it is
/// given, for every non-zero sample rate and every non-zero channel count that the
/// samples reach (the sample count need not be a multiple of it). Each error names the
/// one thing wrong: a zero rate, a zero channel count, or fewer samples than channels.
pub proof fn lemma_creation_outcome<S>(r: Result<Wave<S>, WaveError>, samples: Seq<S>, sample_rate: u32, channels: u16)
    requires
        creation_ok(r, samples, sample_rate, channels),
    ensures
        sample_rate != 0 && channels != 0 && channels <= samples.len() ==> (r matches Ok(w) && w.samples@ == samples
            && w.sample_rate == sample_rate && w.channels == channels),
        r is Err ==> sample_rate == 0 || channels == 0 || channels > samples.len(),
        r matches Err(WaveError::Creation(CreationError::InvalidSampleRate(x))) ==> x == 0 && sample_rate == 0,
        r matches Err(WaveError::Creation(CreationError::InvalidChannels(x))) ==> x == 0 && channels == 0
            && sample_rate != 0,
        r matches Err(WaveError::Creation(CreationError::TooFewSamples { required, actual })) ==> required == channels
            && actual == samples.len() && channels > samples.len() && sample_rate != 0 && channels != 0,
        r is Err ==> r matches Err(WaveError::Creation(_)),
{
}

/// Mixing two waveforms is refused exactly when their sample rates, channel counts or
/// lengths differ or they hold no samples; each error carries the two values that differ.
pub proof fn lemma_mix_refusals<S>(left: Wave<S>, right: Wave<S>)
    ensures
        mix_error(left, right) is None <==> (left.sample_rate == right.sample_rate && left.channels == right.channels
            && left.samples@.len() == right.samples@.len() && left.samples@.len() > 0),
        mix_error(left, right) matches Some(DataError::SampleRateMismatch { left: x, right: y }) ==> x == left.sample_rate
            && y == right.sample_rate && x != y,
        mix_error(left, right) matches Some(DataError::ChannelMismatch { left: x, right: y }) ==> x == left.channels
            && y == right.channels && x != y,
        mix_error(left, right) matches Some(DataError::LengthMismatch { left: x, right: y }) ==> x == left.samples@.len()
            && y == right.samples@.len() && x != y,
        mix_error(left, right) matches Some(DataError::EmptySamples) ==> left.samples@.len() == 0,
{
    assert(left.samples@.len() == left.samples.len());
    assert(right.samples@.len() == right.samples.len());
}

/// Separating a waveform with a non-zero sample rate and channel count at `point` gives
/// two parts exactly when `point` is neither 0 nor past the last sample and each part
/// holds at least as many samples as there are channels.
pub proof fn lemma_separate_succeeds<S>(wave: Wave<S>, point: usize)
    requires
        wave.sample_rate != 0,
        wave.channels != 0,
    ensures
        (separate_error(wave, point) is None && creation_error(point as nat, wave.sample_rate, wave.channels) is None
            && creation_error((wave.samples@.len() - point) as nat, wave.sample_rate, wave.channels) is None) <==> (0
            < point <= wave.samples@.len() && wave.channels <= point && wave.channels <= wave.samples@.len() - point),
{
}

} // verus!
