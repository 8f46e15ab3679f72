use crabmix::riff::{Chunk, ChunkError, FourCC, FourCCError};

fn ten_samples_wave() -> Vec<u8> {
    b"RIFF\x38\x00\x00\x00WAVEfmt \x10\x00\x00\x00\x01\x00\x01\x00\x44\xac\x00\x00\x88\x58\x01\x00\x02\x00\x10\x00data\x14\x00\x00\x00\x01\x00\x33\x03\x69\x06\x91\x09\xb7\x0c\xc6\x0f\xd3\x12\xbc\x15\xa1\x18\x60\x1b".to_vec()
}

fn webp_bytes() -> Vec<u8> {
    let mut bytes: Vec<u8> = Vec::new();
    bytes.extend_from_slice(b"RIFF");
    bytes.extend_from_slice(&22u32.to_le_bytes());
    bytes.extend_from_slice(b"WEBP");
    bytes.extend_from_slice(b"VP8L");
    bytes.extend_from_slice(&10u32.to_le_bytes());
    bytes.extend_from_slice(&[0x2f, 0x00, 0x00, 0x00, 0x00, 0x07, 0x10, 0x11, 0x88, 0x88]);
    bytes
}

fn sinewave_bytes() -> Vec<u8> {
    let samples_len: usize = 88200;
    let sample_rate: u32 = 44100;
    let mut data: Vec<u8> = Vec::new();
    for i in 0..samples_len {
        let t = i as f64 / sample_rate as f64;
        let value = (440.0f64 * 2.0 * std::f64::consts::PI * t).sin();
        let raw = (value * i16::MAX as f64) as i16;
        data.extend_from_slice(&raw.to_le_bytes());
    }
    let mut bytes: Vec<u8> = Vec::new();
    bytes.extend_from_slice(b"RIFF");
    bytes.extend_from_slice(&(36 + data.len() as u32).to_le_bytes());
    bytes.extend_from_slice(b"WAVEfmt ");
    bytes.extend_from_slice(&16u32.to_le_bytes());
    bytes.extend_from_slice(&[1, 0, 1, 0]);
    bytes.extend_from_slice(&sample_rate.to_le_bytes());
    bytes.extend_from_slice(&(sample_rate * 2).to_le_bytes());
    bytes.extend_from_slice(&[2, 0, 16, 0]);
    bytes.extend_from_slice(b"data");
    bytes.extend_from_slice(&(data.len() as u32).to_le_bytes());
    bytes.extend_from_slice(&data);
    bytes
}

#[test]
fn four_cc_default() {
    let expected = FourCC::default();
    let actual = FourCC::from([0, 0, 0, 0]);

    assert_eq!(expected, actual);
}

#[test]
fn four_cc_from() {
    let expected = FourCC::new([4, 4, 4, 4]);
    let actual = FourCC::from([4, 4, 4, 4]);

    assert_eq!(expected, actual);
}

#[test]
fn load_chunk() {
    let bytes = b"fmt \x0c\x00\x00\x00EXAMPLE_DATA";
    let expected = Chunk::Chunk {
        four_cc: FourCC::from(*b"fmt "),
        data: b"EXAMPLE_DATA".to_vec(),
    };
    let actual = Chunk::try_from(bytes.to_vec()).unwrap();
    assert_eq!(expected, actual);
}

#[test]
fn load_list_chunk() {
    let bytes = b"LIST\x28\x00\x00\x00fmt \x0c\x00\x00\x00EXAMPLE_DATAfmt \x0c\x00\x00\x00EXAMPLE_DATA";
    let expected = Chunk::List {
        chunks: vec![
            Chunk::Chunk {
                four_cc: FourCC::from(b"fmt "),
                data: b"EXAMPLE_DATA".to_vec(),
            },
            Chunk::Chunk {
                four_cc: FourCC::from(b"fmt "),
                data: b"EXAMPLE_DATA".to_vec(),
            },
        ],
    };
    let actual = Chunk::try_from(bytes.to_vec()).unwrap();
    assert_eq!(expected, actual);
}

#[test]
fn load_riff_chunk() {
    let bytes = b"RIFF\x14\x00\x00\x00TESTfmt \x00\x00\x00\x00data\x00\x00\x00\x00";
    let expected = Chunk::Riff {
        four_cc: FourCC::from(b"TEST"),
        chunks: vec![
            Chunk::Chunk {
                four_cc: FourCC::from(b"fmt "),
                data: vec![],
            },
            Chunk::Chunk {
                four_cc: FourCC::from(b"data"),
                data: vec![],
            },
        ],
    };
    let actual = Chunk::try_from(bytes.to_vec()).unwrap();
    assert_eq!(expected, actual);
}

#[test]
fn load_webp() {
    let bytes = webp_bytes();
    assert!(Chunk::try_from(bytes.to_vec()).is_ok());
}

#[test]
fn load_wave() {
    let bytes = sinewave_bytes();
    assert!(Chunk::try_from(bytes.to_vec()).is_ok());
}

#[test]
fn load_10_samples_wave() {
    let bytes = ten_samples_wave();
    let expected = Chunk::Riff {
        four_cc: FourCC::from(b"WAVE"),
        chunks: vec![
            Chunk::Chunk {
                four_cc: FourCC::from(b"fmt "),
                data: vec![1, 0, 1, 0, 68, 172, 0, 0, 136, 88, 1, 0, 2, 0, 16, 0],
            },
            Chunk::Chunk {
                four_cc: FourCC::from(b"data"),
                data: vec![
                    1, 0, 51, 3, 105, 6, 145, 9, 183, 12, 198, 15, 211, 18, 188, 21, 161, 24, 96, 27,
                ],
            },
        ],
    };
    let actual = Chunk::try_from(bytes.to_vec()).unwrap();
    assert_eq!(expected, actual);
}

#[test]
fn chunk_try_from_vec_roundtrip() {
    let test_files: Vec<Vec<u8>> = vec![
        b"fmt \x0c\x00\x00\x00EXAMPLE_DATA".to_vec(),
        b"LIST\x28\x00\x00\x00fmt \x0c\x00\x00\x00EXAMPLE_DATAfmt \x0c\x00\x00\x00EXAMPLE_DATA".to_vec(),
        b"RIFF\x14\x00\x00\x00TESTfmt \x00\x00\x00\x00data\x00\x00\x00\x00".to_vec(),
        ten_samples_wave(),
        webp_bytes(),
        sinewave_bytes(),
    ];

    for original_bytes in test_files {
        let chunk = Chunk::try_from(original_bytes.clone()).unwrap();
        let converted_bytes: Vec<u8> = chunk.into();
        assert_eq!(original_bytes.len(), converted_bytes.len());
        assert_eq!(original_bytes, converted_bytes);
    }
}

#[test]
fn try_from_slice_and_vec_ref_agree() {
    let bytes = ten_samples_wave();
    let from_slice = Chunk::try_from(bytes.as_slice()).unwrap();
    let from_ref = Chunk::try_from(&bytes).unwrap();
    assert_eq!(from_slice, from_ref);
}

#[test]
fn size_of_each_kind() {
    let plain = Chunk::Chunk { four_cc: FourCC::from(b"abcd"), data: vec![1, 2, 3] };
    assert_eq!(plain.size(), 3);
    let list = Chunk::List { chunks: vec![plain.clone(), plain.clone()] };
    assert_eq!(list.size(), 22);
    let riff = Chunk::Riff { four_cc: FourCC::from(b"TEST"), chunks: vec![plain.clone()] };
    assert_eq!(riff.size(), 15);
}

#[test]
fn odd_riff_is_padded() {
    let riff = Chunk::Riff {
        four_cc: FourCC::from(b"TEST"),
        chunks: vec![Chunk::Chunk { four_cc: FourCC::from(b"abcd"), data: vec![7, 8, 9] }],
    };
    let bytes: Vec<u8> = (&riff).into();
    assert_eq!(
        bytes,
        b"RIFF\x10\x00\x00\x00TESTabcd\x03\x00\x00\x00\x07\x08\x09\x00".to_vec()
    );
    let back = Chunk::try_from(bytes.as_slice()).unwrap();
    assert_eq!(back, riff);
}

#[test]
fn list_roundtrip() {
    let list = Chunk::List {
        chunks: vec![
            Chunk::Chunk { four_cc: FourCC::from(b"INAM"), data: b"song".to_vec() },
            Chunk::Chunk { four_cc: FourCC::from(b"IART"), data: b"band".to_vec() },
        ],
    };
    let bytes: Vec<u8> = list.clone().into();
    assert_eq!(bytes.len(), list.size() as usize + 8);
    assert_eq!(Chunk::try_from(bytes).unwrap(), list);
}

#[test]
fn empty_list_and_riff() {
    let list = Chunk::List { chunks: vec![] };
    let bytes: Vec<u8> = list.clone().into();
    assert_eq!(bytes, b"LIST\x00\x00\x00\x00".to_vec());
    assert_eq!(Chunk::try_from(bytes).unwrap(), list);

    let riff = Chunk::Riff { four_cc: FourCC::from(b"WAVE"), chunks: vec![] };
    let bytes: Vec<u8> = riff.clone().into();
    assert_eq!(bytes, b"RIFF\x04\x00\x00\x00WAVE".to_vec());
    assert_eq!(Chunk::try_from(bytes).unwrap(), riff);
}

#[test]
fn buffer_too_short_under_eight_bytes() {
    match Chunk::try_from(&b"fmt \x00"[..]) {
        Err(ChunkError::BufferTooShort { needed, actual }) => {
            assert_eq!(needed, 8);
            assert_eq!(actual, 5);
        }
        other => panic!("unexpected result: {:?}", other),
    }
}

#[test]
fn buffer_too_short_for_payload() {
    match Chunk::try_from(&b"data\x10\x00\x00\x00abcd"[..]) {
        Err(ChunkError::BufferTooShort { needed, actual }) => {
            assert_eq!(needed, 24);
            assert_eq!(actual, 12);
        }
        other => panic!("unexpected result: {:?}", other),
    }
}

#[test]
fn riff_shorter_than_twelve_bytes() {
    match Chunk::try_from(&b"RIFF\x04\x00\x00\x00WAV"[..]) {
        Err(ChunkError::BufferTooShort { needed, actual }) => {
            assert_eq!(needed, 12);
            assert_eq!(actual, 11);
        }
        other => panic!("unexpected result: {:?}", other),
    }
}

#[test]
fn list_with_truncated_child() {
    match Chunk::try_from(&b"LIST\x20\x00\x00\x00abcd\x08\x00\x00\x00xy"[..]) {
        Err(ChunkError::BufferTooShort { needed, actual }) => {
            assert_eq!(needed, 16);
            assert_eq!(actual, 10);
        }
        other => panic!("unexpected result: {:?}", other),
    }
}

#[test]
fn nested_list_in_riff_is_read_as_list() {
    let bytes = b"RIFF\x14\x00\x00\x00TESTLIST\x08\x00\x00\x00abcd\x00\x00\x00\x00".to_vec();
    let expected = Chunk::Riff {
        four_cc: FourCC::from(b"TEST"),
        chunks: vec![Chunk::List {
            chunks: vec![Chunk::Chunk { four_cc: FourCC::from(b"abcd"), data: vec![] }],
        }],
    };
    let parsed = Chunk::try_from(bytes.clone()).unwrap();
    assert_eq!(parsed, expected);
    let written: Vec<u8> = parsed.into();
    assert_eq!(written, bytes);
}

#[test]
fn nested_list_is_read_as_list() {
    let bytes = b"LIST\x18\x00\x00\x00LIST\x08\x00\x00\x00abcd\x00\x00\x00\x00xyzw\x00\x00\x00\x00".to_vec();
    let expected = Chunk::List {
        chunks: vec![
            Chunk::List { chunks: vec![Chunk::Chunk { four_cc: FourCC::from(b"abcd"), data: vec![] }] },
            Chunk::Chunk { four_cc: FourCC::from(b"xyzw"), data: vec![] },
        ],
    };
    let parsed = Chunk::try_from(bytes.clone()).unwrap();
    assert_eq!(parsed, expected);
    assert_eq!(parsed.size(), 24);
    let written: Vec<u8> = parsed.into();
    assert_eq!(written, bytes);
}

#[test]
fn nested_riff_is_read_as_plain_chunk() {
    let tree = Chunk::List {
        chunks: vec![
            Chunk::Riff {
                four_cc: FourCC::from(b"WAVE"),
                chunks: vec![Chunk::Chunk { four_cc: FourCC::from(b"data"), data: vec![1, 2] }],
            },
            Chunk::List { chunks: vec![] },
            Chunk::Chunk { four_cc: FourCC::from(b"xyzw"), data: vec![9, 9, 9, 9] },
        ],
    };
    let bytes: Vec<u8> = (&tree).into();
    let expected = Chunk::List {
        chunks: vec![
            Chunk::Chunk { four_cc: FourCC::from(b"RIFF"), data: b"WAVEdata\x02\x00\x00\x00\x01\x02".to_vec() },
            Chunk::List { chunks: vec![] },
            Chunk::Chunk { four_cc: FourCC::from(b"xyzw"), data: vec![9, 9, 9, 9] },
        ],
    };
    let parsed = Chunk::try_from(bytes.as_slice()).unwrap();
    assert_eq!(parsed, expected);
    let written: Vec<u8> = parsed.into();
    assert_eq!(written, bytes);
}

#[test]
fn odd_nested_riff_is_read_as_plain_chunk() {
    let tree = Chunk::List {
        chunks: vec![
            Chunk::Riff {
                four_cc: FourCC::from(b"TEST"),
                chunks: vec![Chunk::Chunk { four_cc: FourCC::from(b"abcd"), data: vec![0x5a] }],
            },
            Chunk::Chunk { four_cc: FourCC::from(b"xyzw"), data: vec![] },
        ],
    };
    let bytes: Vec<u8> = (&tree).into();
    assert_eq!(bytes.len(), 38);
    let expected = Chunk::List {
        chunks: vec![Chunk::Chunk {
            four_cc: FourCC::from(b"RIFF"),
            data: b"TESTabcd\x01\x00\x00\x00\x5a\x00".to_vec(),
        }],
    };
    assert_eq!(Chunk::try_from(bytes.as_slice()).unwrap(), expected);
}

#[test]
fn riff_coded_child_is_plain_chunk() {
    let bytes = b"RIFF\x0c\x00\x00\x00TESTRIFF\x00\x00\x00\x00";
    let expected = Chunk::Riff {
        four_cc: FourCC::from(b"TEST"),
        chunks: vec![Chunk::Chunk { four_cc: FourCC::from(b"RIFF"), data: vec![] }],
    };
    assert_eq!(Chunk::try_from(&bytes[..]).unwrap(), expected);
}

#[test]
fn info_list_child_falls_back_to_plain_chunk() {
    let bytes = b"RIFF\x1c\x00\x00\x00WAVELIST\x10\x00\x00\x00INFOISFT\x04\x00\x00\x00abc\x00";
    assert_eq!(bytes.len(), 36);
    let expected = Chunk::Riff {
        four_cc: FourCC::from(b"WAVE"),
        chunks: vec![Chunk::Chunk {
            four_cc: FourCC::from(b"LIST"),
            data: b"INFOISFT\x04\x00\x00\x00abc\x00".to_vec(),
        }],
    };
    let parsed = Chunk::try_from(&bytes[..]).unwrap();
    assert_eq!(parsed, expected);
    let written: Vec<u8> = parsed.into();
    assert_eq!(written, bytes.to_vec());
}

#[test]
fn list_child_that_does_not_fill_its_size_is_plain_chunk() {
    let bytes = b"RIFF\x18\x00\x00\x00TESTLIST\x0c\x00\x00\x00abcd\x00\x00\x00\x00wxyz";
    let expected = Chunk::Riff {
        four_cc: FourCC::from(b"TEST"),
        chunks: vec![Chunk::Chunk {
            four_cc: FourCC::from(b"LIST"),
            data: b"abcd\x00\x00\x00\x00wxyz".to_vec(),
        }],
    };
    assert_eq!(Chunk::try_from(&bytes[..]).unwrap(), expected);
}

#[test]
fn encoded_length_is_size_plus_header() {
    let tree = Chunk::List {
        chunks: vec![
            Chunk::List { chunks: vec![Chunk::Chunk { four_cc: FourCC::from(b"abcd"), data: vec![1, 2, 3] }] },
            Chunk::Chunk { four_cc: FourCC::from(b"RIFF"), data: vec![7] },
        ],
    };
    let bytes: Vec<u8> = (&tree).into();
    assert_eq!(tree.size(), 8 + 11 + 9);
    assert_eq!(bytes.len(), tree.size() as usize + 8);
    assert_eq!(Chunk::try_from(bytes.as_slice()).unwrap(), tree);
}

#[test]
fn four_cc_conversions() {
    let cc = FourCC::from(*b"fmt ");
    assert_eq!(cc.as_bytes(), b"fmt ");
    let arr: [u8; 4] = cc.into();
    assert_eq!(&arr, b"fmt ");
    let v: Vec<u8> = cc.into();
    assert_eq!(v, b"fmt ".to_vec());
    assert_eq!(cc.as_ref(), &b"fmt "[..]);
    assert_eq!(FourCC::try_from(&b"data"[..]).unwrap(), FourCC::new(*b"data"));
}

#[test]
fn four_cc_invalid_length() {
    match FourCC::try_from(&b"dat"[..]) {
        Err(FourCCError::InvalidLength { actual }) => assert_eq!(actual, 3),
        Ok(cc) => panic!("unexpected code: {:?}", cc),
    }
}

#[test]
fn four_cc_display_string() {
    assert_eq!(FourCC::from(*b"fmt ").to_display_string(), "fmt ");
    assert_eq!(FourCC::from([0x41, 0x00, 0x7f, 0x7e]).to_display_string(), "A..~");
}

#[test]
fn clone_keeps_the_chunk() {
    let riff = Chunk::Riff {
        four_cc: FourCC::from(b"WAVE"),
        chunks: vec![
            Chunk::Chunk { four_cc: FourCC::from(b"fmt "), data: vec![1, 2] },
            Chunk::List { chunks: vec![Chunk::Chunk { four_cc: FourCC::from(b"INFO"), data: vec![3] }] },
        ],
    };
    assert_eq!(riff.clone(), riff);
}
