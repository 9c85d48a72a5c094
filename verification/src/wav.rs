//! The WAVE container codec.
//!
//! `AudioBuffer` is the canonical waveform: one channel of 32-bit
//! IEEE-float samples, held as bit patterns, at a fixed sample rate.
//! `encode` writes it as a RIFF/WAVE byte sequence whose every byte is
//! specified by `encode_bytes`; `decode` reads a container back,
//! normalizing 8-bit and 16-bit integer samples and passing float
//! samples through unchanged, exactly as `parse_wav` specifies.

use crate::sample::{i16_sample_bits, i8_sample_bits, normalize_i16, normalize_i8};
use vstd::arithmetic::div_mod::{lemma_div_denominator, lemma_fundamental_div_mod};
use vstd::arithmetic::mul::lemma_mul_upper_bound;
use vstd::prelude::*;

verus! {

/// Canonical mono waveform. Samples are IEEE-754 single-precision bit
/// patterns, amplitude-normalized to roughly [-1.0, 1.0].
#[derive(Clone, Debug, PartialEq, Eq)]
pub struct AudioBuffer {
    pub samples: Vec<u32>,
    pub sample_rate: u32,
}

/// Why a byte sequence was rejected by the decoder.
#[derive(Clone, Copy, Debug, PartialEq, Eq, Structural)]
pub enum DecodeError {
    /// The RIFF/WAVE framing or the fmt chunk is not well formed.
    MalformedHeader,
    /// The declared sample encoding is none of the supported three:
    /// 8-bit integer, 16-bit integer, 32-bit float.
    UnsupportedSampleFormat,
    /// A chunk, or the sample data, extends past the end of the input.
    Truncated,
}

/// Why a waveform could not be written.
#[derive(Clone, Copy, Debug, PartialEq, Eq, Structural)]
pub enum EncodeError {
    /// A 32-bit size field of the container would overflow.
    TooLarge,
}

/// Little-endian bytes of a 16-bit value.
pub open spec fn le16(v: nat) -> Seq<u8> {
    seq![(v % 256) as u8, ((v / 256) % 256) as u8]
}

/// Little-endian bytes of a 32-bit value.
pub open spec fn le32(v: nat) -> Seq<u8> {
    seq![
        (v % 256) as u8,
        ((v / 256) % 256) as u8,
        ((v / 65536) % 256) as u8,
        ((v / 16777216) % 256) as u8,
    ]
}

/// The 16-bit value stored little-endian at `pos`.
pub open spec fn le16_at(b: Seq<u8>, pos: int) -> nat {
    (b[pos] + 256 * b[pos + 1]) as nat
}

/// The 32-bit value stored little-endian at `pos`.
pub open spec fn le32_at(b: Seq<u8>, pos: int) -> nat {
    (b[pos] + 256 * b[pos + 1] + 65536 * b[pos + 2] + 16777216 * b[pos + 3]) as nat
}

pub open spec fn tag_riff() -> Seq<u8> {
    seq![0x52u8, 0x49u8, 0x46u8, 0x46u8]
}

pub open spec fn tag_wave() -> Seq<u8> {
    seq![0x57u8, 0x41u8, 0x56u8, 0x45u8]
}

pub open spec fn tag_fmt() -> Seq<u8> {
    seq![0x66u8, 0x6du8, 0x74u8, 0x20u8]
}

pub open spec fn tag_data() -> Seq<u8> {
    seq![0x64u8, 0x61u8, 0x74u8, 0x61u8]
}

/// Flat little-endian encoding of the sample words.
pub open spec fn sample_bytes(samples: Seq<u32>) -> Seq<u8>
    decreases samples.len(),
{
    if samples.len() == 0 {
        Seq::empty()
    } else {
        le32(samples[0] as nat) + sample_bytes(samples.drop_first())
    }
}

/// Whether a waveform fits the container's 32-bit size fields.
pub open spec fn encodable(samples: Seq<u32>, sample_rate: u32) -> bool {
    &&& 4 * samples.len() + 36 <= 0xFFFF_FFFF
    &&& 4 * (sample_rate as nat) <= 0xFFFF_FFFF
}

/// The 44 header bytes written before the sample data: the RIFF frame, a
/// 16-byte fmt chunk declaring one channel of 32-bit IEEE-float samples,
/// and the data chunk header.
pub open spec fn header_bytes(n: nat, sample_rate: u32) -> Seq<u8> {
    tag_riff() + le32(36 + 4 * n) + tag_wave() + tag_fmt() + le32(16) + le16(3) + le16(1) + le32(
        sample_rate as nat,
    ) + le32(4 * sample_rate as nat) + le16(4) + le16(32) + tag_data() + le32(4 * n)
}

/// Every byte of the container written for a waveform.
pub open spec fn encode_bytes(samples: Seq<u32>, sample_rate: u32) -> Seq<u8> {
    header_bytes(samples.len(), sample_rate) + sample_bytes(samples)
}

pub proof fn lemma_sample_bytes_len(s: Seq<u32>)
    ensures
        sample_bytes(s).len() == 4 * s.len(),
    decreases s.len(),
{
    if s.len() > 0 {
        lemma_sample_bytes_len(s.drop_first());
    }
}

pub proof fn lemma_sample_bytes_append(a: Seq<u32>, b: Seq<u32>)
    ensures
        sample_bytes(a + b) == sample_bytes(a) + sample_bytes(b),
    decreases a.len(),
{
    if a.len() == 0 {
        assert(a + b =~= b);
        assert(sample_bytes(a) + sample_bytes(b) =~= sample_bytes(b));
    } else {
        lemma_sample_bytes_append(a.drop_first(), b);
        assert((a + b).drop_first() =~= a.drop_first() + b);
        assert((a + b)[0] == a[0]);
        assert(le32(a[0] as nat) + (sample_bytes(a.drop_first()) + sample_bytes(b)) =~= (le32(
            a[0] as nat,
        ) + sample_bytes(a.drop_first())) + sample_bytes(b));
    }
}

proof fn lemma_sample_bytes_singleton(x: u32)
    ensures
        sample_bytes(seq![x]) == le32(x as nat),
{
    assert(seq![x].drop_first() =~= Seq::<u32>::empty());
    assert(le32(x as nat) + sample_bytes(Seq::<u32>::empty()) =~= le32(x as nat));
}

/// Appends the little-endian bytes of a 16-bit value.
fn push_le16(out: &mut Vec<u8>, v: u16)
    ensures
        final(out)@ == old(out)@ + le16(v as nat),
{
    out.push((v % 256) as u8);
    out.push((v / 256) as u8);
    assert(out@ =~= old(out)@ + le16(v as nat));
}

/// Appends the little-endian bytes of a 32-bit value.
fn push_le32(out: &mut Vec<u8>, v: u32)
    ensures
        final(out)@ == old(out)@ + le32(v as nat),
{
    out.push((v % 256) as u8);
    out.push(((v / 256) % 256) as u8);
    out.push(((v / 65536) % 256) as u8);
    out.push((v / 16777216) as u8);
    assert(out@ =~= old(out)@ + le32(v as nat));
}

/// Appends four literal bytes.
fn push_tag(out: &mut Vec<u8>, t0: u8, t1: u8, t2: u8, t3: u8)
    ensures
        final(out)@ == old(out)@ + seq![t0, t1, t2, t3],
{
    out.push(t0);
    out.push(t1);
    out.push(t2);
    out.push(t3);
    assert(out@ =~= old(out)@ + seq![t0, t1, t2, t3]);
}

impl AudioBuffer {
    /// Writes the waveform as a single-channel, 32-bit IEEE-float WAVE
    /// container; fails exactly when a 32-bit size field would overflow.
    pub fn encode(&self) -> (r: Result<Vec<u8>, EncodeError>)
        ensures
            r is Ok <==> encodable(self.samples@, self.sample_rate),
            r is Ok ==> r->Ok_0@ == encode_bytes(self.samples@, self.sample_rate),
            r is Err ==> r == Err::<Vec<u8>, EncodeError>(EncodeError::TooLarge),
    {
        let n: usize = self.samples.len();
        if n > (0xFFFF_FFFFusize - 36) / 4 {
            return Err(EncodeError::TooLarge);
        }
        if self.sample_rate > 0xFFFF_FFFFu32 / 4 {
            return Err(EncodeError::TooLarge);
        }
        let mut out: Vec<u8> = Vec::new();
        push_tag(&mut out, 0x52, 0x49, 0x46, 0x46);
        push_le32(&mut out, 36 + 4 * (n as u32));
        push_tag(&mut out, 0x57, 0x41, 0x56, 0x45);
        push_tag(&mut out, 0x66, 0x6d, 0x74, 0x20);
        push_le32(&mut out, 16);
        push_le16(&mut out, 3);
        push_le16(&mut out, 1);
        push_le32(&mut out, self.sample_rate);
        push_le32(&mut out, 4 * self.sample_rate);
        push_le16(&mut out, 4);
        push_le16(&mut out, 32);
        push_tag(&mut out, 0x64, 0x61, 0x74, 0x61);
        push_le32(&mut out, 4 * (n as u32));
        assert(out@ =~= header_bytes(n as nat, self.sample_rate));
        let mut i: usize = 0;
        while i < n
            invariant
                i <= n,
                n == self.samples@.len(),
                out@ == header_bytes(n as nat, self.sample_rate) + sample_bytes(
                    self.samples@.take(i as int),
                ),
            decreases n - i,
        {
            let s: u32 = self.samples[i];
            push_le32(&mut out, s);
            proof {
                assert(self.samples@.take(i + 1) =~= self.samples@.take(i as int) + seq![s]);
                lemma_sample_bytes_append(self.samples@.take(i as int), seq![s]);
                lemma_sample_bytes_singleton(s);
                assert((header_bytes(n as nat, self.sample_rate) + sample_bytes(
                    self.samples@.take(i as int),
                )) + le32(s as nat) =~= header_bytes(n as nat, self.sample_rate) + (sample_bytes(
                    self.samples@.take(i as int),
                ) + le32(s as nat)));
            }
            i = i + 1;
        }
        proof {
            assert(self.samples@.take(n as int) =~= self.samples@);
        }
        Ok(out)
    }
}

/// Format information read from a fmt chunk, after structural checks.
#[derive(Clone, Copy, Debug, PartialEq, Eq, Structural)]
pub struct FmtInfo {
    pub is_float: bool,
    pub bits: u16,
    pub channels: u16,
    pub rate: u32,
}

/// The three sample encodings the decoder accepts.
#[derive(Clone, Copy, Debug, PartialEq, Eq, Structural)]
pub enum SampleKind {
    Int8,
    Int16,
    Float32,
}

/// The subformat identifier of an extensible fmt chunk; `first` is 1 for
/// integer samples and 3 for float samples.
pub open spec fn guid_bytes(first: u8) -> Seq<u8> {
    seq![
        first,
        0u8,
        0u8,
        0u8,
        0u8,
        0u8,
        0x10u8,
        0u8,
        0x80u8,
        0u8,
        0u8,
        0xaau8,
        0u8,
        0x38u8,
        0x9bu8,
        0x71u8,
    ]
}

/// Parse of a fmt chunk body of declared length `len` at `pos`, assumed
/// to lie within `b`. Accepts the plain 16-byte layout, the 18-byte
/// layout with an empty extension, and the 40-byte extensible layout.
pub open spec fn parse_fmt(b: Seq<u8>, pos: int, len: nat) -> Result<FmtInfo, DecodeError> {
    if len < 16 {
        Err(DecodeError::MalformedHeader)
    } else {
        let tag = le16_at(b, pos);
        let channels = le16_at(b, pos + 2);
        let rate = le32_at(b, pos + 4);
        let byte_rate = le32_at(b, pos + 8);
        let align = le16_at(b, pos + 12);
        let bits = le16_at(b, pos + 14);
        if channels == 0 {
            Err(DecodeError::MalformedHeader)
        } else if bits == 0 || bits % 8 != 0 {
            Err(DecodeError::MalformedHeader)
        } else if align != channels * (bits / 8) {
            Err(DecodeError::MalformedHeader)
        } else if byte_rate != align * rate {
            Err(DecodeError::MalformedHeader)
        } else if tag == 1 {
            if len == 16 || ((len == 18 || len == 40) && (bits == 8 || bits == 16 || bits == 24)) {
                Ok(
                    FmtInfo {
                        is_float: false,
                        bits: bits as u16,
                        channels: channels as u16,
                        rate: rate as u32,
                    },
                )
            } else {
                Err(DecodeError::MalformedHeader)
            }
        } else if tag == 3 {
            if len == 16 || (len == 18 && le16_at(b, pos + 16) == 0) {
                Ok(
                    FmtInfo {
                        is_float: true,
                        bits: bits as u16,
                        channels: channels as u16,
                        rate: rate as u32,
                    },
                )
            } else {
                Err(DecodeError::MalformedHeader)
            }
        } else if tag == 0xfffe {
            if len != 40 {
                Err(DecodeError::MalformedHeader)
            } else if le16_at(b, pos + 16) != 22 {
                Err(DecodeError::MalformedHeader)
            } else {
                let valid_bits = le16_at(b, pos + 18);
                let real_bits = if valid_bits > 0 {
                    valid_bits
                } else {
                    bits
                };
                let guid = b.subrange(pos + 24, pos + 40);
                if guid == guid_bytes(1) {
                    Ok(
                        FmtInfo {
                            is_float: false,
                            bits: real_bits as u16,
                            channels: channels as u16,
                            rate: rate as u32,
                        },
                    )
                } else if guid == guid_bytes(3) {
                    Ok(
                        FmtInfo {
                            is_float: true,
                            bits: real_bits as u16,
                            channels: channels as u16,
                            rate: rate as u32,
                        },
                    )
                } else {
                    Err(DecodeError::UnsupportedSampleFormat)
                }
            }
        } else {
            Err(DecodeError::UnsupportedSampleFormat)
        }
    }
}

/// The sample encoding of a format, when it is one of the supported three.
pub open spec fn classify(f: FmtInfo) -> Result<SampleKind, DecodeError> {
    if !f.is_float && f.bits == 8 {
        Ok(SampleKind::Int8)
    } else if !f.is_float && f.bits == 16 {
        Ok(SampleKind::Int16)
    } else if f.is_float && f.bits == 32 {
        Ok(SampleKind::Float32)
    } else {
        Err(DecodeError::UnsupportedSampleFormat)
    }
}

/// The signed value of a 16-bit two's-complement word.
pub open spec fn signed16(v: nat) -> int {
    if v < 32768 {
        v as int
    } else {
        v - 65536
    }
}

/// The normalized bit pattern of sample `i` of a data chunk at `pos`.
/// 8-bit samples are stored biased by 128; 16-bit samples little-endian
/// two's-complement; float samples are taken verbatim.
pub open spec fn sample_at(b: Seq<u8>, pos: int, k: SampleKind, i: int) -> u32 {
    match k {
        SampleKind::Int8 => i8_sample_bits(b[pos + i] - 128),
        SampleKind::Int16 => i16_sample_bits(signed16(le16_at(b, pos + 2 * i))),
        SampleKind::Float32 => le32_at(b, pos + 4 * i) as u32,
    }
}

/// Parse of a data chunk of declared length `len` at `pos`, given the
/// format of the preceding fmt chunk.
pub open spec fn parse_data(b: Seq<u8>, pos: int, len: nat, f: FmtInfo) -> Result<
    (u32, Seq<u32>),
    DecodeError,
> {
    let bps = (f.bits / 8) as nat;
    if bps == 0 || f.channels == 0 {
        Err(DecodeError::MalformedHeader)
    } else if len % bps != 0 {
        Err(DecodeError::MalformedHeader)
    } else if (len / bps) % (f.channels as nat) != 0 {
        Err(DecodeError::MalformedHeader)
    } else {
        match classify(f) {
            Err(e) => Err(e),
            Ok(k) => if pos + len > b.len() {
                Err(DecodeError::Truncated)
            } else {
                Ok((f.rate, Seq::new(len / bps, |i: int| sample_at(b, pos, k, i))))
            },
        }
    }
}

/// Walk of the chunk sequence from `pos`: chunks before the data chunk
/// are parsed (fmt) or skipped, and the data chunk, which must follow a
/// fmt chunk, ends the walk.
pub open spec fn parse_chunks(b: Seq<u8>, pos: int, fmt: Option<FmtInfo>) -> Result<
    (u32, Seq<u32>),
    DecodeError,
>
    decreases b.len() - pos,
{
    if pos < 0 || pos + 8 > b.len() {
        Err(DecodeError::Truncated)
    } else {
        let tag = b.subrange(pos, pos + 4);
        let len = le32_at(b, pos + 4);
        if tag == tag_data() {
            match fmt {
                None => Err(DecodeError::MalformedHeader),
                Some(f) => parse_data(b, pos + 8, len, f),
            }
        } else if pos + 8 + len > b.len() {
            Err(DecodeError::Truncated)
        } else if tag == tag_fmt() {
            match parse_fmt(b, pos + 8, len) {
                Err(e) => Err(e),
                Ok(f) => parse_chunks(b, pos + 8 + len, Some(f)),
            }
        } else {
            parse_chunks(b, pos + 8 + len, fmt)
        }
    }
}

/// Full parse of a WAVE container into its sample rate and the
/// normalized bit patterns of its samples.
pub open spec fn parse_wav(b: Seq<u8>) -> Result<(u32, Seq<u32>), DecodeError> {
    if b.len() < 12 {
        Err(DecodeError::MalformedHeader)
    } else if b.subrange(0, 4) != tag_riff() || b.subrange(8, 12) != tag_wave() {
        Err(DecodeError::MalformedHeader)
    } else {
        parse_chunks(b, 12, None::<FmtInfo>)
    }
}

/// Reads the 16-bit little-endian value at `pos`.
fn read_le16(b: &Vec<u8>, pos: usize) -> (r: u16)
    requires
        pos + 2 <= b@.len(),
    ensures
        r as nat == le16_at(b@, pos as int),
{
    // The length call puts `b@.len() <= usize::MAX` in scope, so the
    // index arithmetic below cannot overflow.
    let _len: usize = b.len();
    b[pos] as u16 + 256 * (b[pos + 1] as u16)
}

/// Reads the 32-bit little-endian value at `pos`.
fn read_le32(b: &Vec<u8>, pos: usize) -> (r: u32)
    requires
        pos + 4 <= b@.len(),
    ensures
        r as nat == le32_at(b@, pos as int),
{
    // The length call puts `b@.len() <= usize::MAX` in scope, so the
    // index arithmetic below cannot overflow.
    let _len: usize = b.len();
    b[pos] as u32 + 256 * (b[pos + 1] as u32) + 65536 * (b[pos + 2] as u32) + 16777216 * (b[pos
        + 3] as u32)
}

/// Compares the four bytes at `pos` with a literal tag.
fn tag_matches(b: &Vec<u8>, pos: usize, t0: u8, t1: u8, t2: u8, t3: u8) -> (r: bool)
    requires
        pos + 4 <= b@.len(),
    ensures
        r <==> b@.subrange(pos as int, pos as int + 4) == seq![t0, t1, t2, t3],
{
    // The length call puts `b@.len() <= usize::MAX` in scope, so the
    // index arithmetic below cannot overflow.
    let _len: usize = b.len();
    let m: bool = b[pos] == t0 && b[pos + 1] == t1 && b[pos + 2] == t2 && b[pos + 3] == t3;
    proof {
        let s = b@.subrange(pos as int, pos as int + 4);
        if m {
            assert(s =~= seq![t0, t1, t2, t3]);
        } else {
            if s == seq![t0, t1, t2, t3] {
                assert(s[0] == t0 && s[1] == t1 && s[2] == t2 && s[3] == t3);
            }
        }
    }
    m
}

/// Compares the sixteen bytes at `pos` with a subformat identifier.
fn guid_matches(b: &Vec<u8>, pos: usize, first: u8) -> (r: bool)
    requires
        pos + 16 <= b@.len(),
    ensures
        r <==> b@.subrange(pos as int, pos as int + 16) == guid_bytes(first),
{
    // The length call puts `b@.len() <= usize::MAX` in scope, so the
    // index arithmetic below cannot overflow.
    let _len: usize = b.len();
    let m: bool = b[pos] == first && b[pos + 1] == 0 && b[pos + 2] == 0 && b[pos + 3] == 0 && b[pos
        + 4] == 0 && b[pos + 5] == 0 && b[pos + 6] == 0x10 && b[pos + 7] == 0 && b[pos + 8] == 0x80
        && b[pos + 9] == 0 && b[pos + 10] == 0 && b[pos + 11] == 0xaa && b[pos + 12] == 0 && b[pos
        + 13] == 0x38 && b[pos + 14] == 0x9b && b[pos + 15] == 0x71;
    proof {
        let s = b@.subrange(pos as int, pos as int + 16);
        if m {
            assert(s =~= guid_bytes(first));
        } else {
            if s == guid_bytes(first) {
                assert(s[0] == first && s[1] == 0 && s[2] == 0 && s[3] == 0 && s[4] == 0 && s[5]
                    == 0 && s[6] == 0x10 && s[7] == 0 && s[8] == 0x80 && s[9] == 0 && s[10] == 0
                    && s[11] == 0xaa && s[12] == 0 && s[13] == 0x38 && s[14] == 0x9b && s[15]
                    == 0x71);
            }
        }
    }
    m
}

/// Parses a fmt chunk body, mirroring `parse_fmt`.
fn parse_fmt_exec(b: &Vec<u8>, pos: usize, len: usize) -> (r: Result<FmtInfo, DecodeError>)
    requires
        pos + len <= b@.len(),
    ensures
        r == parse_fmt(b@, pos as int, len as nat),
{
    // The length call puts `b@.len() <= usize::MAX` in scope, so the
    // index arithmetic below cannot overflow.
    let _len: usize = b.len();
    if len < 16 {
        return Err(DecodeError::MalformedHeader);
    }
    let tag: u16 = read_le16(b, pos);
    let channels: u16 = read_le16(b, pos + 2);
    let rate: u32 = read_le32(b, pos + 4);
    let byte_rate: u32 = read_le32(b, pos + 8);
    let align: u16 = read_le16(b, pos + 12);
    let bits: u16 = read_le16(b, pos + 14);
    if channels == 0 {
        return Err(DecodeError::MalformedHeader);
    }
    if bits == 0 || bits % 8 != 0 {
        return Err(DecodeError::MalformedHeader);
    }
    proof {
        lemma_mul_upper_bound(channels as int, 0xFFFF, (bits / 8) as int, 0xFFFF);
        lemma_mul_upper_bound(align as int, 0xFFFF, rate as int, 0xFFFF_FFFF);
    }
    if align as u32 != (channels as u32) * ((bits / 8) as u32) {
        return Err(DecodeError::MalformedHeader);
    }
    if byte_rate as u64 != (align as u64) * (rate as u64) {
        return Err(DecodeError::MalformedHeader);
    }
    if tag == 1 {
        if len == 16 || ((len == 18 || len == 40) && (bits == 8 || bits == 16 || bits == 24)) {
            Ok(FmtInfo { is_float: false, bits, channels, rate })
        } else {
            Err(DecodeError::MalformedHeader)
        }
    } else if tag == 3 {
        if len == 16 {
            Ok(FmtInfo { is_float: true, bits, channels, rate })
        } else if len == 18 && read_le16(b, pos + 16) == 0 {
            Ok(FmtInfo { is_float: true, bits, channels, rate })
        } else {
            Err(DecodeError::MalformedHeader)
        }
    } else if tag == 0xfffe {
        if len != 40 {
            return Err(DecodeError::MalformedHeader);
        }
        if read_le16(b, pos + 16) != 22 {
            return Err(DecodeError::MalformedHeader);
        }
        let valid_bits: u16 = read_le16(b, pos + 18);
        let real_bits: u16 = if valid_bits > 0 {
            valid_bits
        } else {
            bits
        };
        if guid_matches(b, pos + 24, 1) {
            Ok(FmtInfo { is_float: false, bits: real_bits, channels, rate })
        } else if guid_matches(b, pos + 24, 3) {
            Ok(FmtInfo { is_float: true, bits: real_bits, channels, rate })
        } else {
            Err(DecodeError::UnsupportedSampleFormat)
        }
    } else {
        Err(DecodeError::UnsupportedSampleFormat)
    }
}

/// Reads `n` biased 8-bit samples starting at `pos`, normalized.
fn read_samples_i8(b: &Vec<u8>, pos: usize, n: usize) -> (r: Vec<u32>)
    requires
        pos + n <= b@.len(),
    ensures
        r@ == Seq::new(n as nat, |j: int| sample_at(b@, pos as int, SampleKind::Int8, j)),
{
    // The length call puts `b@.len() <= usize::MAX` in scope, so the
    // index arithmetic below cannot overflow.
    let _len: usize = b.len();
    let mut out: Vec<u32> = Vec::new();
    let mut i: usize = 0;
    while i < n
        invariant
            i <= n,
            b@.len() <= usize::MAX,
            pos + n <= b@.len(),
            out@.len() == i,
            forall|j: int|
                0 <= j < i ==> out@[j] == sample_at(b@, pos as int, SampleKind::Int8, j),
        decreases n - i,
    {
        let byte: u8 = b[pos + i];
        let sv: i16 = byte as i16 - 128;
        out.push(normalize_i8(sv as i8));
        i = i + 1;
    }
    proof {
        assert(out@ =~= Seq::new(n as nat, |j: int| sample_at(b@, pos as int, SampleKind::Int8, j)));
    }
    out
}

/// Reads `n` little-endian 16-bit samples starting at `pos`, normalized.
fn read_samples_i16(b: &Vec<u8>, pos: usize, n: usize) -> (r: Vec<u32>)
    requires
        pos + 2 * n <= b@.len(),
    ensures
        r@ == Seq::new(n as nat, |j: int| sample_at(b@, pos as int, SampleKind::Int16, j)),
{
    // The length call puts `b@.len() <= usize::MAX` in scope, so the
    // index arithmetic below cannot overflow.
    let _len: usize = b.len();
    let mut out: Vec<u32> = Vec::new();
    let mut i: usize = 0;
    while i < n
        invariant
            i <= n,
            b@.len() <= usize::MAX,
            pos + 2 * n <= b@.len(),
            out@.len() == i,
            forall|j: int|
                0 <= j < i ==> out@[j] == sample_at(b@, pos as int, SampleKind::Int16, j),
        decreases n - i,
    {
        let v: u16 = read_le16(b, pos + 2 * i);
        let sv: i32 = if v < 32768 {
            v as i32
        } else {
            v as i32 - 65536
        };
        out.push(normalize_i16(sv as i16));
        i = i + 1;
    }
    proof {
        assert(out@ =~= Seq::new(
            n as nat,
            |j: int| sample_at(b@, pos as int, SampleKind::Int16, j),
        ));
    }
    out
}

/// Reads `n` little-endian float samples starting at `pos`, verbatim.
fn read_samples_f32(b: &Vec<u8>, pos: usize, n: usize) -> (r: Vec<u32>)
    requires
        pos + 4 * n <= b@.len(),
    ensures
        r@ == Seq::new(n as nat, |j: int| sample_at(b@, pos as int, SampleKind::Float32, j)),
{
    // The length call puts `b@.len() <= usize::MAX` in scope, so the
    // index arithmetic below cannot overflow.
    let _len: usize = b.len();
    let mut out: Vec<u32> = Vec::new();
    let mut i: usize = 0;
    while i < n
        invariant
            i <= n,
            b@.len() <= usize::MAX,
            pos + 4 * n <= b@.len(),
            out@.len() == i,
            forall|j: int|
                0 <= j < i ==> out@[j] == sample_at(b@, pos as int, SampleKind::Float32, j),
        decreases n - i,
    {
        out.push(read_le32(b, pos + 4 * i));
        i = i + 1;
    }
    proof {
        assert(out@ =~= Seq::new(
            n as nat,
            |j: int| sample_at(b@, pos as int, SampleKind::Float32, j),
        ));
    }
    out
}

/// Decodes the samples of a data chunk, mirroring `parse_data`.
fn decode_data(b: &Vec<u8>, pos: usize, len: usize, f: FmtInfo) -> (r: Result<
    AudioBuffer,
    DecodeError,
>)
    requires
        pos <= b@.len(),
    ensures
        match parse_data(b@, pos as int, len as nat, f) {
            Ok(p) => r is Ok && r->Ok_0.sample_rate == p.0 && r->Ok_0.samples@ == p.1,
            Err(e) => r is Err && r->Err_0 == e,
        },
{
    let bps: u16 = f.bits / 8;
    if bps == 0 || f.channels == 0 {
        return Err(DecodeError::MalformedHeader);
    }
    let bps_us: usize = bps as usize;
    if len % bps_us != 0 {
        return Err(DecodeError::MalformedHeader);
    }
    let n: usize = len / bps_us;
    if n % (f.channels as usize) != 0 {
        return Err(DecodeError::MalformedHeader);
    }
    if !f.is_float && f.bits == 8 {
        if b.len() - pos < len {
            return Err(DecodeError::Truncated);
        }
        Ok(AudioBuffer { samples: read_samples_i8(b, pos, n), sample_rate: f.rate })
    } else if !f.is_float && f.bits == 16 {
        if b.len() - pos < len {
            return Err(DecodeError::Truncated);
        }
        proof {
            lemma_fundamental_div_mod(len as int, 2);
        }
        Ok(AudioBuffer { samples: read_samples_i16(b, pos, n), sample_rate: f.rate })
    } else if f.is_float && f.bits == 32 {
        if b.len() - pos < len {
            return Err(DecodeError::Truncated);
        }
        proof {
            lemma_fundamental_div_mod(len as int, 4);
        }
        Ok(AudioBuffer { samples: read_samples_f32(b, pos, n), sample_rate: f.rate })
    } else {
        Err(DecodeError::UnsupportedSampleFormat)
    }
}

/// Decodes a WAVE container into the canonical waveform, exactly as
/// `parse_wav` specifies: the sample rate is taken from the header, and
/// each sample is the normalized bit pattern of the stored sample.
pub fn decode(bytes: &Vec<u8>) -> (r: Result<AudioBuffer, DecodeError>)
    ensures
        match parse_wav(bytes@) {
            Ok(p) => r is Ok && r->Ok_0.sample_rate == p.0 && r->Ok_0.samples@ == p.1,
            Err(e) => r is Err && r->Err_0 == e,
        },
{
    if bytes.len() < 12 {
        return Err(DecodeError::MalformedHeader);
    }
    if !tag_matches(bytes, 0, 0x52, 0x49, 0x46, 0x46) {
        return Err(DecodeError::MalformedHeader);
    }
    if !tag_matches(bytes, 8, 0x57, 0x41, 0x56, 0x45) {
        return Err(DecodeError::MalformedHeader);
    }
    let mut pos: usize = 12;
    let mut fmt: Option<FmtInfo> = None;
    loop
        invariant
            12 <= pos <= bytes@.len(),
            parse_wav(bytes@) == parse_chunks(bytes@, pos as int, fmt),
        decreases bytes@.len() - pos,
    {
        if bytes.len() - pos < 8 {
            return Err(DecodeError::Truncated);
        }
        let clen: u32 = read_le32(bytes, pos + 4);
        let clen_us: usize = clen as usize;
        if tag_matches(bytes, pos, 0x64, 0x61, 0x74, 0x61) {
            match fmt {
                None => {
                    return Err(DecodeError::MalformedHeader);
                },
                Some(f) => {
                    return decode_data(bytes, pos + 8, clen_us, f);
                },
            }
        }
        if bytes.len() - pos - 8 < clen_us {
            return Err(DecodeError::Truncated);
        }
        if tag_matches(bytes, pos, 0x66, 0x6d, 0x74, 0x20) {
            match parse_fmt_exec(bytes, pos + 8, clen_us) {
                Err(e) => {
                    return Err(e);
                },
                Ok(f) => {
                    fmt = Some(f);
                },
            }
        }
        pos = pos + 8 + clen_us;
    }
}

/// A 16-bit value written little-endian reads back as itself.
proof fn lemma_le16_value(b: Seq<u8>, p: int, v: nat)
    requires
        0 <= p,
        p + 2 <= b.len(),
        v < 65536,
        b.subrange(p, p + 2) == le16(v),
    ensures
        le16_at(b, p) == v,
{
    assert(b[p] == le16(v)[0] && b[p + 1] == le16(v)[1]) by {
        assert(b.subrange(p, p + 2)[0] == b[p]);
        assert(b.subrange(p, p + 2)[1] == b[p + 1]);
    }
    lemma_fundamental_div_mod(v as int, 256);
}

/// A 32-bit value written little-endian reads back as itself.
proof fn lemma_le32_value(b: Seq<u8>, p: int, v: nat)
    requires
        0 <= p,
        p + 4 <= b.len(),
        v < 0x1_0000_0000,
        b.subrange(p, p + 4) == le32(v),
    ensures
        le32_at(b, p) == v,
{
    assert(b[p] == le32(v)[0] && b[p + 1] == le32(v)[1] && b[p + 2] == le32(v)[2] && b[p + 3]
        == le32(v)[3]) by {
        assert(b.subrange(p, p + 4)[0] == b[p]);
        assert(b.subrange(p, p + 4)[1] == b[p + 1]);
        assert(b.subrange(p, p + 4)[2] == b[p + 2]);
        assert(b.subrange(p, p + 4)[3] == b[p + 3]);
    }
    lemma_div_denominator(v as int, 256, 256);
    lemma_div_denominator(v as int, 65536, 256);
    lemma_fundamental_div_mod(v as int, 256);
    lemma_fundamental_div_mod(v as int / 256, 256);
    lemma_fundamental_div_mod(v as int / 65536, 256);
    assert(65536 * (256 * (v as int / 65536 / 256) + (v as int / 65536) % 256) == 16777216 * (v
        as int / 16777216) + 65536 * ((v as int / 65536) % 256));
}

/// The four bytes of sample `i` within the flat sample encoding.
proof fn lemma_sample_bytes_at(s: Seq<u32>, i: int)
    requires
        0 <= i < s.len(),
    ensures
        sample_bytes(s).subrange(4 * i, 4 * i + 4) == le32(s[i] as nat),
    decreases i,
{
    lemma_sample_bytes_len(s);
    if i == 0 {
        assert(sample_bytes(s).subrange(0, 4) =~= le32(s[0] as nat));
    } else {
        lemma_sample_bytes_at(s.drop_first(), i - 1);
        lemma_sample_bytes_len(s.drop_first());
        assert(sample_bytes(s).subrange(4 * i, 4 * i + 4) =~= sample_bytes(
            s.drop_first(),
        ).subrange(4 * (i - 1), 4 * (i - 1) + 4));
        assert(s.drop_first()[i - 1] == s[i]);
    }
}

/// The fields of the header, read back from its bytes.
#[verifier::rlimit(100)]
#[verifier::spinoff_prover]
proof fn lemma_header_fields(n: nat, rate: u32)
    requires
        4 * n + 36 <= 0xFFFF_FFFF,
        4 * (rate as nat) <= 0xFFFF_FFFF,
    ensures
        header_bytes(n, rate).len() == 44,
        header_bytes(n, rate).subrange(0, 4) == tag_riff(),
        header_bytes(n, rate).subrange(8, 12) == tag_wave(),
        header_bytes(n, rate).subrange(12, 16) == tag_fmt(),
        le32_at(header_bytes(n, rate), 16) == 16,
        le16_at(header_bytes(n, rate), 20) == 3,
        le16_at(header_bytes(n, rate), 22) == 1,
        le32_at(header_bytes(n, rate), 24) == rate,
        le32_at(header_bytes(n, rate), 28) == 4 * (rate as nat),
        le16_at(header_bytes(n, rate), 32) == 4,
        le16_at(header_bytes(n, rate), 34) == 32,
        header_bytes(n, rate).subrange(36, 40) == tag_data(),
        le32_at(header_bytes(n, rate), 40) == 4 * n,
{
    let h = header_bytes(n, rate);
    assert(h.subrange(0, 4) =~= tag_riff());
    assert(h.subrange(8, 12) =~= tag_wave());
    assert(h.subrange(12, 16) =~= tag_fmt());
    assert(h.subrange(16, 20) =~= le32(16));
    lemma_le32_value(h, 16, 16);
    assert(h.subrange(20, 22) =~= le16(3));
    lemma_le16_value(h, 20, 3);
    assert(h.subrange(22, 24) =~= le16(1));
    lemma_le16_value(h, 22, 1);
    assert(h.subrange(24, 28) =~= le32(rate as nat));
    lemma_le32_value(h, 24, rate as nat);
    assert(h.subrange(28, 32) =~= le32(4 * rate as nat));
    lemma_le32_value(h, 28, 4 * rate as nat);
    assert(h.subrange(32, 34) =~= le16(4));
    lemma_le16_value(h, 32, 4);
    assert(h.subrange(34, 36) =~= le16(32));
    lemma_le16_value(h, 34, 32);
    assert(h.subrange(36, 40) =~= tag_data());
    assert(h.subrange(40, 44) =~= le32(4 * n));
    lemma_le32_value(h, 40, 4 * n);
}

/// Law: decoding an encoded waveform yields exactly the original samples
/// and sample rate. Holds for every waveform whose container fits the
/// 32-bit size fields, i.e. whenever `encode` succeeds.
#[verifier::rlimit(100)]
#[verifier::spinoff_prover]
pub proof fn lemma_round_trip(samples: Seq<u32>, sample_rate: u32)
    requires
        encodable(samples, sample_rate),
    ensures
        parse_wav(encode_bytes(samples, sample_rate)) == Ok::<(u32, Seq<u32>), DecodeError>(
            (sample_rate, samples),
        ),
{
    let b = encode_bytes(samples, sample_rate);
    let n = samples.len() as int;
    let h = header_bytes(samples.len(), sample_rate);
    lemma_sample_bytes_len(samples);
    lemma_header_fields(samples.len(), sample_rate);
    assert(b.len() == 44 + 4 * n);
    assert(b.subrange(0, 4) =~= h.subrange(0, 4));
    assert(b.subrange(8, 12) =~= h.subrange(8, 12));
    assert(b.subrange(12, 16) =~= h.subrange(12, 16));
    assert(b.subrange(36, 40) =~= h.subrange(36, 40));
    assert(tag_fmt() != tag_data()) by {
        assert(tag_fmt()[0] == 0x66u8);
        assert(tag_data()[0] == 0x64u8);
    }
    assert(le32_at(b, 16) == le32_at(h, 16)) by {
        assert(b[16] == h[16] && b[17] == h[17] && b[18] == h[18] && b[19] == h[19]);
    }
    assert(le16_at(b, 20) == le16_at(h, 20)) by {
        assert(b[20] == h[20] && b[21] == h[21]);
    }
    assert(le16_at(b, 22) == le16_at(h, 22)) by {
        assert(b[22] == h[22] && b[23] == h[23]);
    }
    assert(le32_at(b, 24) == le32_at(h, 24)) by {
        assert(b[24] == h[24] && b[25] == h[25] && b[26] == h[26] && b[27] == h[27]);
    }
    assert(le32_at(b, 28) == le32_at(h, 28)) by {
        assert(b[28] == h[28] && b[29] == h[29] && b[30] == h[30] && b[31] == h[31]);
    }
    assert(le16_at(b, 32) == le16_at(h, 32)) by {
        assert(b[32] == h[32] && b[33] == h[33]);
    }
    assert(le16_at(b, 34) == le16_at(h, 34)) by {
        assert(b[34] == h[34] && b[35] == h[35]);
    }
    assert(le32_at(b, 40) == le32_at(h, 40)) by {
        assert(b[40] == h[40] && b[41] == h[41] && b[42] == h[42] && b[43] == h[43]);
    }
    let f = FmtInfo { is_float: true, bits: 32, channels: 1, rate: sample_rate };
    assert(parse_fmt(b, 20, 16) == Ok::<FmtInfo, DecodeError>(f));
    assert(parse_chunks(b, 12, None::<FmtInfo>) == parse_chunks(b, 36, Some(f)));
    assert(parse_chunks(b, 36, Some(f)) == parse_data(b, 44, (4 * n) as nat, f));
    assert(classify(f) == Ok::<SampleKind, DecodeError>(SampleKind::Float32));
    let decoded = Seq::new(samples.len(), |i: int| sample_at(b, 44, SampleKind::Float32, i));
    assert(parse_data(b, 44, (4 * n) as nat, f) == Ok::<(u32, Seq<u32>), DecodeError>(
        (sample_rate, decoded),
    ));
    assert forall|i: int| 0 <= i < n implies decoded[i] == samples[i] by {
        lemma_sample_bytes_at(samples, i);
        assert(b.subrange(44 + 4 * i, 44 + 4 * i + 4) =~= sample_bytes(samples).subrange(
            4 * i,
            4 * i + 4,
        ));
        lemma_le32_value(b, 44 + 4 * i, samples[i] as nat);
    }
    assert(decoded =~= samples);
    assert(parse_wav(b) == parse_chunks(b, 12, None::<FmtInfo>));
}

} // verus!
