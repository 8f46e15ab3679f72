use crabmix::wav::FormatCode;
use crabmix::wave::{
    ensure_sufficient_samples, ensure_valid_channels, ensure_valid_sample_rate, validate_equal_channels,
    validate_equal_lengths, validate_equal_sample_rates, validate_not_empty, validate_point_is_not_zero,
    validate_samples_len_is_bigger_than_point, CreationError, DataError, FileFormat, Wave, WaveError,
    WaveWriteOptions, WriteOptions,
};

#[test]
fn new() {
    let _ = Wave::new(&[0.5, 0.5, 0.5, 0.5, 0.5], 44100, 1).unwrap();
    let _ = Wave::new(&[1.0, 1.0, 1.0, 1.0, 1.0], 44100, 1).unwrap();
}

#[test]
fn mix() {
    let left = Wave::new(&[0.5, 0.5, 0.5, 0.5, 0.5], 44100, 1).unwrap();
    let right = Wave::new(&[1.0, 1.0, 1.0, 1.0, 1.0], 44100, 1).unwrap();
    let result = left.mix(&right, |l: f64, r: f64| l + r).unwrap();

    assert_eq!(result, Wave::new(&[1.5, 1.5, 1.5, 1.5, 1.5], 44100, 1).unwrap());
}

#[test]
fn separate() {
    let original = Wave::new(&[0.5, 0.5, 0.5, 0.5, 0.5], 44100, 1).unwrap();
    let expected = (
        Wave::new(&[0.5, 0.5, 0.5], 44100, 1).unwrap(),
        Wave::new(&[0.5, 0.5], 44100, 1).unwrap(),
    );
    let actual = original.separate(3).unwrap();

    assert_eq!(expected, actual);
}

#[test]
#[should_panic(expected = "The separate_point value must not be zero")]
fn separate_failure() {
    let original = Wave::new(&[0.5, 0.5, 0.5, 0.5, 0.5], 44100, 1).expect("Failed to create Wave");
    let _ = original
        .separate(0)
        .expect("The separate_point value must not be zero");
}

fn creation_error<S: std::fmt::Debug>(r: Result<Wave<S>, WaveError>) -> CreationError {
    match r {
        Err(WaveError::Creation(e)) => e,
        other => panic!("unexpected result: {:?}", other),
    }
}

fn data_error<T: std::fmt::Debug>(r: Result<T, WaveError>) -> DataError {
    match r {
        Err(WaveError::Data(e)) => e,
        other => panic!("unexpected result: {:?}", other),
    }
}

#[test]
fn new_errors() {
    assert_eq!(creation_error(Wave::new(&[1u8, 2], 0, 1)), CreationError::InvalidSampleRate(0));
    assert_eq!(creation_error(Wave::new(&[1u8, 2], 8000, 0)), CreationError::InvalidChannels(0));
    assert_eq!(
        creation_error(Wave::new(&[1u8, 2], 8000, 3)),
        CreationError::TooFewSamples { required: 3, actual: 2 }
    );
    let w = Wave::new(&[1u8, 2], 8000, 2).unwrap();
    assert_eq!(w.samples(), vec![1u8, 2]);
    assert_eq!(w.sample_rate(), 8000);
    assert_eq!(w.channels(), 2);
}

#[test]
fn mix_errors() {
    let a = Wave::new(&[1i32, 2], 8000, 1).unwrap();
    let other_rate = Wave::new(&[1i32, 2], 16000, 1).unwrap();
    let other_channels = Wave::new(&[1i32, 2], 8000, 2).unwrap();
    let other_len = Wave::new(&[1i32, 2, 3], 8000, 1).unwrap();
    assert_eq!(
        data_error(a.mix(&other_rate, |l: i32, r: i32| l + r)),
        DataError::SampleRateMismatch { left: 8000, right: 16000 }
    );
    assert_eq!(
        data_error(a.mix(&other_channels, |l: i32, r: i32| l + r)),
        DataError::ChannelMismatch { left: 1, right: 2 }
    );
    assert_eq!(
        data_error(a.mix(&other_len, |l: i32, r: i32| l + r)),
        DataError::LengthMismatch { left: 2, right: 3 }
    );
    let empty: Wave<i32> = Wave { samples: vec![], sample_rate: 8000, channels: 1 };
    assert_eq!(data_error(empty.mix(&empty, |l: i32, r: i32| l + r)), DataError::EmptySamples);
}

#[test]
fn mix_applies_the_function_pairwise() {
    let a = Wave::new(&[1i32, 2, 3], 8000, 1).unwrap();
    let b = Wave::new(&[10i32, 20, 30], 8000, 1).unwrap();
    let m = a.mix(&b, |l: i32, r: i32| l * 100 + r).unwrap();
    assert_eq!(m.samples, vec![110, 220, 330]);
    assert_eq!(m.sample_rate, 8000);
    assert_eq!(m.channels, 1);
}

#[test]
fn separate_errors() {
    let empty: Wave<i32> = Wave { samples: vec![], sample_rate: 8000, channels: 1 };
    assert_eq!(data_error(empty.separate(1)), DataError::EmptySamples);
    let w = Wave::new(&[1i32, 2, 3, 4], 8000, 2).unwrap();
    assert_eq!(data_error(w.separate(5)), DataError::TooShortSamples);
    assert_eq!(data_error(w.separate(0)), DataError::TooShortSeparatePoint);
    match w.separate(1) {
        Err(WaveError::Creation(e)) => assert_eq!(e, CreationError::TooFewSamples { required: 2, actual: 1 }),
        other => panic!("unexpected result: {:?}", other),
    }
    match w.separate(4) {
        Err(WaveError::Creation(e)) => assert_eq!(e, CreationError::TooFewSamples { required: 2, actual: 0 }),
        other => panic!("unexpected result: {:?}", other),
    }
}

#[test]
fn separate_keeps_all_samples() {
    let w = Wave::new(&[1i32, 2, 3, 4, 5, 6], 8000, 2).unwrap();
    let (a, b) = w.separate(2).unwrap();
    assert_eq!(a.samples, vec![1, 2]);
    assert_eq!(b.samples, vec![3, 4, 5, 6]);
    let mut joined = a.samples.clone();
    joined.extend_from_slice(&b.samples);
    assert_eq!(joined, w.samples);
}

#[test]
fn write_options() {
    let file_format = FileFormat::wav(FormatCode::PCM, 8);
    let options = WaveWriteOptions::new(file_format);
    assert_eq!(options.file_format(), FileFormat::Wav { format_code: FormatCode::PCM, bits: 8 });
    assert_eq!(FileFormat::default(), FileFormat::Wav { format_code: FormatCode::PCM, bits: 16 });
}

#[test]
fn default_wave_is_empty() {
    let w: Wave<f64> = Wave::default();
    assert!(w.samples.is_empty());
    assert_eq!(w.sample_rate, 0);
    assert_eq!(w.channels, 0);
}

#[test]
fn sufficient_samples_need_not_fill_every_frame() {
    assert!(ensure_sufficient_samples(2, &[1i16, 2, 3]).is_ok());
    assert!(ensure_sufficient_samples(3, &[1i16, 2, 3]).is_ok());
    assert!(matches!(ensure_sufficient_samples(4, &[1i16, 2, 3]), Err(WaveError::Creation(CreationError::TooFewSamples { required: 4, actual: 3 }))));
    assert!(matches!(ensure_sufficient_samples::<i16>(1, &[]), Err(WaveError::Creation(CreationError::TooFewSamples { required: 1, actual: 0 }))));
}

#[test]
fn creation_checks() {
    assert!(ensure_valid_sample_rate(44100).is_ok());
    assert!(matches!(ensure_valid_sample_rate(0), Err(WaveError::Creation(CreationError::InvalidSampleRate(0)))));
    assert!(ensure_valid_channels(2).is_ok());
    assert!(matches!(ensure_valid_channels(0), Err(WaveError::Creation(CreationError::InvalidChannels(0)))));
}

#[test]
fn separation_checks() {
    assert!(validate_point_is_not_zero(1).is_ok());
    assert!(matches!(validate_point_is_not_zero(0), Err(WaveError::Data(DataError::TooShortSeparatePoint))));
    let wave = Wave::new(&[1i16, 2, 3], 44100, 1).unwrap();
    assert!(validate_not_empty(&wave).is_ok());
    assert!(validate_samples_len_is_bigger_than_point(&wave, 3).is_ok());
    assert!(matches!(validate_samples_len_is_bigger_than_point(&wave, 4), Err(WaveError::Data(DataError::TooShortSamples))));
    let empty: Wave<i16> = Wave { samples: vec![], sample_rate: 44100, channels: 1 };
    assert!(matches!(validate_not_empty(&empty), Err(WaveError::Data(DataError::EmptySamples))));
}

#[test]
fn mixing_checks() {
    let a = Wave::new(&[1i16, 2], 44100, 1).unwrap();
    let b = Wave::new(&[1i16, 2, 3], 48000, 2).unwrap();
    assert!(validate_equal_lengths(&a, &a).is_ok());
    assert!(matches!(validate_equal_lengths(&a, &b), Err(WaveError::Data(DataError::LengthMismatch { left: 2, right: 3 }))));
    assert!(validate_equal_sample_rates(&a, &a).is_ok());
    assert!(matches!(validate_equal_sample_rates(&a, &b), Err(WaveError::Data(DataError::SampleRateMismatch { left: 44100, right: 48000 }))));
    assert!(validate_equal_channels(&a, &a).is_ok());
    assert!(matches!(validate_equal_channels(&a, &b), Err(WaveError::Data(DataError::ChannelMismatch { left: 1, right: 2 }))));
}
