//! The WAVE codec, exercised on real containers: the library's encoder
//! and decoder against each other, and both against the hound crate's
//! writer and reader.

use std::io::Cursor;

use tts_bridge::wav::{decode, AudioBuffer, DecodeError, EncodeError};

fn bits(vals: &[f32]) -> Vec<u32> {
    vals.iter().map(|v| v.to_bits()).collect()
}

fn le32_field(bytes: &[u8], pos: usize) -> u32 {
    u32::from_le_bytes([bytes[pos], bytes[pos + 1], bytes[pos + 2], bytes[pos + 3]])
}

#[test]
fn encode_writes_a_valid_header() {
    let buf = AudioBuffer {
        samples: bits(&[0.0, 0.5, -0.5, 1.0]),
        sample_rate: 32000,
    };
    let bytes = buf.encode().unwrap();
    assert_eq!(&bytes[0..4], b"RIFF");
    assert_eq!(le32_field(&bytes, 4) as usize, bytes.len() - 8);
    assert_eq!(&bytes[8..12], b"WAVE");
    assert_eq!(&bytes[36..40], b"data");
    assert_eq!(le32_field(&bytes, 40), 4 * 4);
    assert_eq!(bytes.len(), 44 + 16);
}

#[test]
fn encode_then_decode_reproduces_the_waveform() {
    let samples = bits(&[0.0, 0.25, -0.125, 1.0, -1.0, 0.333]);
    let buf = AudioBuffer {
        samples: samples.clone(),
        sample_rate: 32000,
    };
    let bytes = buf.encode().unwrap();
    let back = decode(&bytes).unwrap();
    assert_eq!(back.samples, samples);
    assert_eq!(back.sample_rate, 32000);
}

#[test]
fn encode_then_decode_of_empty_waveform() {
    let buf = AudioBuffer {
        samples: Vec::new(),
        sample_rate: 8000,
    };
    let bytes = buf.encode().unwrap();
    assert_eq!(bytes.len(), 44);
    let back = decode(&bytes).unwrap();
    assert!(back.samples.is_empty());
    assert_eq!(back.sample_rate, 8000);
}

#[test]
fn encode_rejects_oversized_sample_rate() {
    let buf = AudioBuffer {
        samples: bits(&[0.5]),
        sample_rate: u32::MAX,
    };
    assert_eq!(buf.encode(), Err(EncodeError::TooLarge));
}

#[test]
fn hound_reads_what_the_library_writes() {
    let vals = [0.0f32, 0.5, -0.75, 0.0625];
    let buf = AudioBuffer {
        samples: bits(&vals),
        sample_rate: 32000,
    };
    let bytes = buf.encode().unwrap();
    let mut reader = hound::WavReader::new(Cursor::new(bytes)).unwrap();
    let spec = reader.spec();
    assert_eq!(spec.channels, 1);
    assert_eq!(spec.sample_rate, 32000);
    assert_eq!(spec.bits_per_sample, 32);
    assert_eq!(spec.sample_format, hound::SampleFormat::Float);
    let read: Vec<f32> = reader.samples::<f32>().map(|s| s.unwrap()).collect();
    assert_eq!(read, vals);
}

fn hound_spec(bits_per_sample: u16, sample_format: hound::SampleFormat) -> hound::WavSpec {
    hound::WavSpec {
        channels: 1,
        sample_rate: 32000,
        bits_per_sample,
        sample_format,
    }
}

#[test]
fn library_decodes_float_wav_written_by_hound() {
    let vals = [0.0f32, 1.0, -1.0, 0.123];
    let mut cursor = Cursor::new(Vec::new());
    {
        let mut writer =
            hound::WavWriter::new(&mut cursor, hound_spec(32, hound::SampleFormat::Float)).unwrap();
        for v in vals {
            writer.write_sample(v).unwrap();
        }
        writer.finalize().unwrap();
    }
    let back = decode(&cursor.into_inner()).unwrap();
    assert_eq!(back.sample_rate, 32000);
    let expected: Vec<u32> = vals.iter().map(|v| v.to_bits()).collect();
    assert_eq!(back.samples, expected);
}

#[test]
fn library_decodes_i16_wav_written_by_hound() {
    let vals: [i16; 6] = [0, 1, -1, i16::MAX, i16::MIN, 12345];
    let mut cursor = Cursor::new(Vec::new());
    {
        let mut writer =
            hound::WavWriter::new(&mut cursor, hound_spec(16, hound::SampleFormat::Int)).unwrap();
        for v in vals {
            writer.write_sample(v).unwrap();
        }
        writer.finalize().unwrap();
    }
    let back = decode(&cursor.into_inner()).unwrap();
    assert_eq!(back.sample_rate, 32000);
    let expected: Vec<u32> = vals.iter().map(|v| (*v as f32 / 32768.0).to_bits()).collect();
    assert_eq!(back.samples, expected);
}

#[test]
fn library_decodes_i8_wav_written_by_hound() {
    let vals: [i8; 5] = [0, 1, -1, i8::MAX, i8::MIN];
    let mut cursor = Cursor::new(Vec::new());
    {
        let mut writer =
            hound::WavWriter::new(&mut cursor, hound_spec(8, hound::SampleFormat::Int)).unwrap();
        for v in vals {
            writer.write_sample(v).unwrap();
        }
        writer.finalize().unwrap();
    }
    let back = decode(&cursor.into_inner()).unwrap();
    assert_eq!(back.sample_rate, 32000);
    let expected: Vec<u32> = vals.iter().map(|v| (*v as f32 / 256.0).to_bits()).collect();
    assert_eq!(back.samples, expected);
}

#[test]
fn decoding_24_bit_samples_is_unsupported() {
    let mut cursor = Cursor::new(Vec::new());
    {
        let mut writer =
            hound::WavWriter::new(&mut cursor, hound_spec(24, hound::SampleFormat::Int)).unwrap();
        for v in [0i32, 100000, -100000] {
            writer.write_sample(v).unwrap();
        }
        writer.finalize().unwrap();
    }
    assert_eq!(
        decode(&cursor.into_inner()),
        Err(DecodeError::UnsupportedSampleFormat)
    );
}

#[test]
fn decoding_garbage_is_malformed() {
    assert_eq!(decode(&Vec::new()), Err(DecodeError::MalformedHeader));
    assert_eq!(decode(&vec![0u8; 11]), Err(DecodeError::MalformedHeader));
    assert_eq!(decode(&vec![0x42u8; 64]), Err(DecodeError::MalformedHeader));
}

#[test]
fn decoding_truncated_data_is_truncated() {
    let buf = AudioBuffer {
        samples: bits(&[0.5, -0.5, 0.25]),
        sample_rate: 32000,
    };
    let mut bytes = buf.encode().unwrap();
    bytes.truncate(bytes.len() - 5);
    assert_eq!(decode(&bytes), Err(DecodeError::Truncated));
}
