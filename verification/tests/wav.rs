use crabmix::riff::{Chunk, ChunkError, FourCC};
use crabmix::wav::{
    parse_bits, parse_channels, parse_chunk, parse_format_code, parse_sample_rate, Channels, FormatCode,
    FormatCodeError, Sample, SampleRate, Wav, WavError,
};

fn wave_file(format_code: u16, bits: u16, data: &[u8]) -> Vec<u8> {
    let mut bytes: Vec<u8> = Vec::new();
    bytes.extend_from_slice(b"RIFF");
    bytes.extend_from_slice(&(36 + data.len() as u32).to_le_bytes());
    bytes.extend_from_slice(b"WAVEfmt ");
    bytes.extend_from_slice(&16u32.to_le_bytes());
    bytes.extend_from_slice(&format_code.to_le_bytes());
    bytes.extend_from_slice(&1u16.to_le_bytes());
    bytes.extend_from_slice(&44100u32.to_le_bytes());
    bytes.extend_from_slice(&(44100u32 * (bits as u32 / 8)).to_le_bytes());
    bytes.extend_from_slice(&(bits / 8).to_le_bytes());
    bytes.extend_from_slice(&bits.to_le_bytes());
    bytes.extend_from_slice(b"data");
    bytes.extend_from_slice(&(data.len() as u32).to_le_bytes());
    bytes.extend_from_slice(data);
    bytes
}

#[test]
fn format_code_new() {
    assert_eq!(FormatCode::new(1).unwrap(), FormatCode::PCM);
    assert_eq!(FormatCode::new(3).unwrap(), FormatCode::IEEEFloat);
    match FormatCode::new(2) {
        Err(FormatCodeError::InvalidCode { actual }) => assert_eq!(actual, 2),
        Ok(fc) => panic!("unexpected format: {:?}", fc),
    }
    assert_eq!(FormatCode::default(), FormatCode::PCM);
}

#[test]
fn sample_rate_and_channels() {
    let rate = SampleRate::from(44100);
    assert_eq!(*rate, 44100);
    let channels = Channels::from(2);
    assert_eq!(*channels, 2);
}

#[test]
fn read_ten_samples_16bit() {
    let bytes = b"RIFF\x38\x00\x00\x00WAVEfmt \x10\x00\x00\x00\x01\x00\x01\x00\x44\xac\x00\x00\x88\x58\x01\x00\x02\x00\x10\x00data\x14\x00\x00\x00\x01\x00\x33\x03\x69\x06\x91\x09\xb7\x0c\xc6\x0f\xd3\x12\xbc\x15\xa1\x18\x60\x1b";
    let wav = Wav::read(bytes).unwrap();
    assert_eq!(*wav.format_code(), FormatCode::PCM);
    assert_eq!(**wav.sample_rate(), 44100);
    assert_eq!(**wav.channels(), 1);
    assert_eq!(wav.bits(), 16);
    let expected: Vec<Sample> = [1i16, 819, 1641, 2449, 3255, 4038, 4819, 5564, 6305, 7008]
        .iter()
        .map(|v| Sample::I16(*v))
        .collect();
    assert_eq!(wav.samples(), &expected);
}

#[test]
fn read_negative_16bit_sample() {
    let bytes = wave_file(1, 16, &[0xff, 0xff, 0x00, 0x80]);
    let wav = Wav::read(&bytes).unwrap();
    assert_eq!(wav.samples(), &vec![Sample::I16(-1), Sample::I16(-32768)]);
}

#[test]
fn read_8bit_samples() {
    let bytes = wave_file(1, 8, &[0x80, 0x83]);
    let wav = Wav::read(&bytes).unwrap();
    assert_eq!(wav.samples(), &vec![Sample::U8(0x80), Sample::U8(0x83)]);
}

#[test]
fn read_24bit_samples_sign_extended() {
    let bytes = wave_file(1, 24, &[0xff, 0xff, 0xff, 0x00, 0x00, 0x80, 0x01, 0x02, 0x03, 0x00, 0x00]);
    let wav = Wav::read(&bytes).unwrap();
    assert_eq!(
        wav.samples(),
        &vec![Sample::I24(-1), Sample::I24(-8388608), Sample::I24(0x030201)]
    );
}

#[test]
fn read_32bit_pcm_and_float() {
    let bytes = wave_file(1, 32, &[0xff, 0xff, 0xff, 0xff, 0x01, 0x00, 0x00, 0x00]);
    let wav = Wav::read(&bytes).unwrap();
    assert_eq!(wav.samples(), &vec![Sample::I32(-1), Sample::I32(1)]);

    let bits = 0.5f32.to_bits();
    let bytes = wave_file(3, 32, &bits.to_le_bytes());
    let wav = Wav::read(&bytes).unwrap();
    assert_eq!(*wav.format_code(), FormatCode::IEEEFloat);
    assert_eq!(wav.samples(), &vec![Sample::F32(bits)]);
}

#[test]
fn read_64bit_float() {
    let bits = (-0.25f64).to_bits();
    let bytes = wave_file(3, 64, &bits.to_le_bytes());
    let wav = Wav::read(&bytes).unwrap();
    assert_eq!(wav.samples(), &vec![Sample::F64(bits)]);
}

#[test]
fn unsupported_format_code_for_bits() {
    let bytes = wave_file(3, 16, &[0, 0]);
    match Wav::read(&bytes) {
        Err(WavError::UnsupportedFormatCode { bits, format_code, expected }) => {
            assert_eq!(bits, 16);
            assert_eq!(format_code, FormatCode::IEEEFloat);
            assert_eq!(expected, vec![FormatCode::PCM]);
        }
        other => panic!("unexpected result: {:?}", other),
    }
    let bytes = wave_file(1, 64, &[0; 8]);
    match Wav::read(&bytes) {
        Err(WavError::UnsupportedFormatCode { bits, format_code, expected }) => {
            assert_eq!(bits, 64);
            assert_eq!(format_code, FormatCode::PCM);
            assert_eq!(expected, vec![FormatCode::IEEEFloat]);
        }
        other => panic!("unexpected result: {:?}", other),
    }
}

#[test]
fn unsupported_format_without_samples_is_read() {
    let bytes = wave_file(3, 8, &[]);
    let wav = Wav::read(&bytes).unwrap();
    assert!(wav.samples().is_empty());
}

#[test]
fn unsupported_bits() {
    let bytes = wave_file(1, 12, &[0, 0]);
    match Wav::read(&bytes) {
        Err(WavError::UnsupportedBits { found_bits }) => assert_eq!(found_bits, 12),
        other => panic!("unexpected result: {:?}", other),
    }
}

#[test]
fn invalid_format_code() {
    let bytes = wave_file(2, 16, &[0, 0]);
    match Wav::read(&bytes) {
        Err(WavError::FormatCodeError(FormatCodeError::InvalidCode { actual })) => assert_eq!(actual, 2),
        other => panic!("unexpected result: {:?}", other),
    }
}

#[test]
fn data_before_format_is_unsupported_bits() {
    let bytes = b"RIFF\x10\x00\x00\x00WAVEdata\x02\x00\x00\x00\x01\x02".to_vec();
    match Wav::read(&bytes) {
        Err(WavError::UnsupportedBits { found_bits }) => assert_eq!(found_bits, 0),
        other => panic!("unexpected result: {:?}", other),
    }
}

#[test]
fn not_a_riff_root() {
    let bytes = b"LIST\x00\x00\x00\x00".to_vec();
    match Wav::read(&bytes) {
        Err(WavError::InvalidRiffChunk { actual }) => assert_eq!(actual, Chunk::List { chunks: vec![] }),
        other => panic!("unexpected result: {:?}", other),
    }
}

#[test]
fn not_a_wave_form() {
    let bytes = b"RIFF\x04\x00\x00\x00WEBP".to_vec();
    match Wav::read(&bytes) {
        Err(WavError::InvalidWave { actual }) => assert_eq!(actual, FourCC::from(b"WEBP")),
        other => panic!("unexpected result: {:?}", other),
    }
}

#[test]
fn bytes_that_are_no_chunk() {
    let bytes = b"RIFF".to_vec();
    match Wav::read(&bytes) {
        Err(WavError::ChunkError(ChunkError::BufferTooShort { needed, actual })) => {
            assert_eq!(needed, 8);
            assert_eq!(actual, 4);
        }
        other => panic!("unexpected result: {:?}", other),
    }
}

#[test]
fn short_format_chunk_is_refused() {
    let bytes = b"RIFF\x10\x00\x00\x00WAVEfmt \x04\x00\x00\x00\x01\x00\x01\x00".to_vec();
    assert!(Wav::read_checked(&bytes).is_none());
    let bytes = b"RIFF\x0e\x00\x00\x00WAVEfmt \x02\x00\x00\x00\x02\x00".to_vec();
    match Wav::read_checked(&bytes) {
        Some(Err(WavError::FormatCodeError(FormatCodeError::InvalidCode { actual }))) => assert_eq!(actual, 2),
        other => panic!("unexpected result: {:?}", other),
    }
}

#[test]
fn default_wav() {
    let wav = Wav::default();
    assert_eq!(*wav.format_code(), FormatCode::PCM);
    assert_eq!(**wav.sample_rate(), 0);
    assert_eq!(**wav.channels(), 0);
    assert_eq!(wav.bits(), 0);
    assert!(wav.samples().is_empty());
}

#[test]
fn field_readers() {
    let fmt = [3u8, 0, 2, 0, 0x44, 0xac, 0, 0, 0, 0, 0, 0, 0, 0, 24, 0];
    let mut wav = Wav::default();
    parse_format_code(&mut wav, &fmt).unwrap();
    parse_sample_rate(&mut wav, &fmt);
    parse_channels(&mut wav, &fmt);
    parse_bits(&mut wav, &fmt).unwrap();
    assert_eq!(*wav.format_code(), FormatCode::IEEEFloat);
    assert_eq!(**wav.sample_rate(), 44100);
    assert_eq!(**wav.channels(), 2);
    assert_eq!(wav.bits(), 24);
    let bad = [0u8; 16];
    assert!(parse_format_code(&mut wav, &bad).is_err());
    assert!(parse_bits(&mut wav, &bad).is_err());
    assert_eq!(wav.bits(), 24);
}

#[test]
fn chunk_walk_skips_other_chunks() {
    let chunks = vec![
        Chunk::List { chunks: vec![] },
        Chunk::Chunk { four_cc: FourCC::from(b"junk"), data: vec![1] },
    ];
    let wav = parse_chunk(&chunks).unwrap().unwrap();
    assert_eq!(wav, Wav::default());
    assert!(parse_chunk(&vec![]).unwrap().is_ok());
}

#[test]
fn info_list_before_data_is_skipped() {
    let mut bytes: Vec<u8> = Vec::new();
    bytes.extend_from_slice(b"RIFF");
    bytes.extend_from_slice(&64u32.to_le_bytes());
    bytes.extend_from_slice(b"WAVEfmt ");
    bytes.extend_from_slice(&16u32.to_le_bytes());
    bytes.extend_from_slice(&1u16.to_le_bytes());
    bytes.extend_from_slice(&1u16.to_le_bytes());
    bytes.extend_from_slice(&44100u32.to_le_bytes());
    bytes.extend_from_slice(&88200u32.to_le_bytes());
    bytes.extend_from_slice(&2u16.to_le_bytes());
    bytes.extend_from_slice(&16u16.to_le_bytes());
    bytes.extend_from_slice(b"LIST");
    bytes.extend_from_slice(&16u32.to_le_bytes());
    bytes.extend_from_slice(b"INFOISFT");
    bytes.extend_from_slice(&4u32.to_le_bytes());
    bytes.extend_from_slice(b"abc\x00");
    bytes.extend_from_slice(b"data");
    bytes.extend_from_slice(&4u32.to_le_bytes());
    bytes.extend_from_slice(&[0x01, 0x00, 0x02, 0x00]);
    assert_eq!(bytes.len(), 72);
    let wav = Wav::read(&bytes).unwrap();
    assert_eq!(wav.samples(), &vec![Sample::I16(1), Sample::I16(2)]);
}
