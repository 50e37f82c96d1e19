//! Procedural sound: oscillator shapes and the WAV container that rendered
//! samples are written into.
//!
//! Rendering a waveform is floating-point work and happens outside this
//! library; what is kept here is the integer part that has to be exactly
//! right for a player to accept the file: the RIFF/WAVE framing of 16-bit
//! mono PCM.

use vstd::prelude::*;

verus! {

/// Oscillator shape.
#[derive(Debug, Clone, Copy, PartialEq, Eq, Structural)]
pub enum Wave {
    Sine,
    Square,
    Triangle,
    Noise,
}

/// `x` as two little-endian bytes (its value modulo 2^16).
pub open spec fn le16(x: int) -> Seq<u8> {
    seq![(x % 256) as u8, ((x / 256) % 256) as u8]
}

/// `x` as four little-endian bytes (its value modulo 2^32).
pub open spec fn le32(x: int) -> Seq<u8> {
    seq![
        (x % 256) as u8,
        ((x / 256) % 256) as u8,
        ((x / 0x1_0000) % 256) as u8,
        ((x / 0x100_0000) % 256) as u8,
    ]
}

/// The samples, each as its two's-complement bytes, least significant first.
pub open spec fn sample_bytes(pcm: Seq<i16>) -> Seq<u8>
    decreases pcm.len(),
{
    if pcm.len() == 0 {
        Seq::empty()
    } else {
        sample_bytes(pcm.drop_last()) + le16(pcm.last() as int)
    }
}

/// Bytes of the sample data as the header records it: two per sample, kept
/// to 32 bits.
pub open spec fn data_len(samples: nat) -> int {
    ((samples * 2) % 0x1_0000_0000) as int
}

/// The 44-byte header of a canonical mono 16-bit PCM WAV file: a RIFF chunk
/// of type `WAVE` holding a 16-byte `fmt ` chunk and a `data` chunk.
pub open spec fn wav_header(data_bytes: int, sample_rate: int) -> Seq<u8> {
    seq![82u8, 73u8, 70u8, 70u8] + le32(36 + data_bytes) + seq![87u8, 65u8, 86u8, 69u8]
        + seq![102u8, 109u8, 116u8, 32u8] + le32(16) + le16(1) + le16(1) + le32(sample_rate)
        + le32(sample_rate * 2) + le16(2) + le16(16) + seq![100u8, 97u8, 116u8, 97u8] + le32(
        data_bytes,
    )
}

/// A complete WAV file for `pcm` at `sample_rate`.
pub open spec fn wav_file(pcm: Seq<i16>, sample_rate: int) -> Seq<u8> {
    wav_header(data_len(pcm.len()), sample_rate) + sample_bytes(pcm)
}

/// The value of the four little-endian bytes at `at`.
pub open spec fn read_le32(bytes: Seq<u8>, at: int) -> int {
    bytes[at] as int + 256 * bytes[at + 1] as int + 0x1_0000 * bytes[at + 2] as int + 0x100_0000 * bytes[at + 3] as int
}

proof fn lemma_le32_reads_back(x: int)
    requires
        0 <= x < 0x1_0000_0000,
    ensures
        read_le32(le32(x), 0) == x,
{
    let b = le32(x);
    assert(b[0] as int == x % 256);
    assert(b[1] as int == (x / 256) % 256);
    assert(b[2] as int == (x / 0x1_0000) % 256);
    assert(b[3] as int == (x / 0x100_0000) % 256);
    assert(x == x % 256 + 256 * ((x / 256) % 256) + 0x1_0000 * ((x / 0x1_0000) % 256) + 0x100_0000 * ((x / 0x100_0000) % 256)) by (nonlinear_arith)
        requires 0 <= x < 0x1_0000_0000;
}

proof fn lemma_sample_bytes_len(pcm: Seq<i16>)
    ensures
        sample_bytes(pcm).len() == 2 * pcm.len(),
    decreases pcm.len(),
{
    if pcm.len() > 0 {
        lemma_sample_bytes_len(pcm.drop_last());
    }
}

/// Law: the sizes a WAV file declares match its real payload. The file is
/// 44 header bytes plus two per sample; the RIFF size field reads as the
/// file length less 8, and the data size field as the file length less 44,
/// whenever the data fits the 32-bit fields.
pub proof fn lemma_declared_sizes_match_payload(pcm: Seq<i16>, sample_rate: int)
    requires
        36 + 2 * pcm.len() <= u32::MAX,
    ensures
        wav_file(pcm, sample_rate).len() == 44 + 2 * pcm.len(),
        read_le32(wav_file(pcm, sample_rate), 4) == wav_file(pcm, sample_rate).len() - 8,
        read_le32(wav_file(pcm, sample_rate), 40) == wav_file(pcm, sample_rate).len() - 44,
{
    lemma_sample_bytes_len(pcm);
    let d = data_len(pcm.len());
    assert(d == 2 * pcm.len());
    let f = wav_file(pcm, sample_rate);
    let riff = le32(36 + d);
    let data = le32(d);
    lemma_le32_reads_back(36 + d);
    lemma_le32_reads_back(d);
    assert(f.subrange(4, 8) =~= riff);
    assert(f.subrange(40, 44) =~= data);
    assert(read_le32(f, 4) == read_le32(f.subrange(4, 8), 0));
    assert(read_le32(f, 40) == read_le32(f.subrange(40, 44), 0));
}

/// The value of the two little-endian bytes at `at`.
pub open spec fn read_le16(bytes: Seq<u8>, at: int) -> int {
    bytes[at] as int + 256 * bytes[at + 1] as int
}

/// Law: the format chunk describes 16-bit mono PCM consistently. The format
/// tag reads 1 (PCM), the channel count 1 and the sample width 16 bits; the
/// block align is channels times bytes per sample, which is 2; the sample
/// rate reads back as given; and the byte rate is the sample rate times the
/// block align.
pub proof fn lemma_format_chunk_is_consistent(pcm: Seq<i16>, sample_rate: int)
    requires
        0 <= sample_rate,
        sample_rate * 2 <= u32::MAX,
    ensures
        read_le16(wav_file(pcm, sample_rate), 20) == 1,
        read_le16(wav_file(pcm, sample_rate), 22) == 1,
        read_le16(wav_file(pcm, sample_rate), 34) == 16,
        read_le16(wav_file(pcm, sample_rate), 32)
            == read_le16(wav_file(pcm, sample_rate), 22) * read_le16(wav_file(pcm, sample_rate), 34) / 8,
        read_le16(wav_file(pcm, sample_rate), 32) == 2,
        read_le32(wav_file(pcm, sample_rate), 24) == sample_rate,
        read_le32(wav_file(pcm, sample_rate), 28)
            == read_le32(wav_file(pcm, sample_rate), 24) * read_le16(wav_file(pcm, sample_rate), 32),
{
    let f = wav_file(pcm, sample_rate);
    lemma_le32_reads_back(sample_rate);
    lemma_le32_reads_back(sample_rate * 2);
    assert(f.subrange(20, 22) =~= le16(1));
    assert(f.subrange(22, 24) =~= le16(1));
    assert(f.subrange(24, 28) =~= le32(sample_rate));
    assert(f.subrange(28, 32) =~= le32(sample_rate * 2));
    assert(f.subrange(32, 34) =~= le16(2));
    assert(f.subrange(34, 36) =~= le16(16));
    assert(read_le16(f, 20) == read_le16(f.subrange(20, 22), 0));
    assert(read_le16(f, 22) == read_le16(f.subrange(22, 24), 0));
    assert(read_le16(f, 32) == read_le16(f.subrange(32, 34), 0));
    assert(read_le16(f, 34) == read_le16(f.subrange(34, 36), 0));
    assert(read_le32(f, 24) == read_le32(f.subrange(24, 28), 0));
    assert(read_le32(f, 28) == read_le32(f.subrange(28, 32), 0));
}

fn push_le16(out: &mut Vec<u8>, x: u32)
    requires
        x < 0x1_0000,
    ensures
        final(out)@ == old(out)@ + le16(x as int),
{
    out.push((x % 256) as u8);
    out.push(((x / 256) % 256) as u8);
    assert(final(out)@ =~= old(out)@ + le16(x as int));
}

fn push_le32(out: &mut Vec<u8>, x: u32)
    ensures
        final(out)@ == old(out)@ + le32(x as int),
{
    out.push((x % 256) as u8);
    out.push(((x / 256) % 256) as u8);
    out.push(((x / 0x1_0000) % 256) as u8);
    out.push(((x / 0x100_0000) % 256) as u8);
    assert(final(out)@ =~= old(out)@ + le32(x as int));
}

fn push_ascii4(out: &mut Vec<u8>, a: u8, b: u8, c: u8, d: u8)
    ensures
        final(out)@ == old(out)@ + seq![a, b, c, d],
{
    out.push(a);
    out.push(b);
    out.push(c);
    out.push(d);
    assert(final(out)@ =~= old(out)@ + seq![a, b, c, d]);
}

/// A minimal canonical WAV container: RIFF/WAVE, one `fmt ` chunk, one
/// `data` chunk of 16-bit mono samples.
pub fn wav_bytes(pcm: &[i16], sample_rate: u32) -> (bytes: Vec<u8>)
    requires
        36 + data_len(pcm@.len()) <= u32::MAX,
        sample_rate * 2 <= u32::MAX,
    ensures
        bytes@ == wav_file(pcm@, sample_rate as int),
{
    let low = (pcm.len() % 0x8000_0000) as u32;
    let data_bytes: u32 = low * 2;
    assert(data_bytes == data_len(pcm@.len())) by (nonlinear_arith)
        requires
            low == pcm@.len() % 0x8000_0000,
            data_bytes == low * 2,
            data_len(pcm@.len()) == (pcm@.len() * 2) % 0x1_0000_0000;
    let mut out: Vec<u8> = Vec::new();
    push_ascii4(&mut out, 82, 73, 70, 70);
    push_le32(&mut out, 36 + data_bytes);
    push_ascii4(&mut out, 87, 65, 86, 69);
    push_ascii4(&mut out, 102, 109, 116, 32);
    push_le32(&mut out, 16);
    push_le16(&mut out, 1);
    push_le16(&mut out, 1);
    push_le32(&mut out, sample_rate);
    push_le32(&mut out, sample_rate * 2);
    push_le16(&mut out, 2);
    push_le16(&mut out, 16);
    push_ascii4(&mut out, 100, 97, 116, 97);
    push_le32(&mut out, data_bytes);
    let ghost header = out@;
    assert(header =~= wav_header(data_bytes as int, sample_rate as int));
    let mut i: usize = 0;
    while i < pcm.len()
        invariant
            i <= pcm@.len(),
            out@ == header + sample_bytes(pcm@.take(i as int)),
        decreases pcm@.len() - i,
    {
        let sample = pcm[i];
        let unsigned: u32 = if sample < 0 { (sample as i32 + 0x1_0000) as u32 } else { sample as u32 };
        assert(le16(unsigned as int) == le16(sample as int)) by {
            assert((unsigned as int) % 256 == (sample as int) % 256);
            assert(((unsigned as int) / 256) % 256 == ((sample as int) / 256) % 256);
        }
        push_le16(&mut out, unsigned);
        proof {
            assert(pcm@.take(i + 1).drop_last() =~= pcm@.take(i as int));
            assert(out@ =~= header + sample_bytes(pcm@.take(i + 1)));
        }
        i = i + 1;
    }
    assert(pcm@.take(pcm@.len() as int) =~= pcm@);
    out
}

} // verus!
