//! WAV files in memory: what their bytes are, and the writer that makes them.

use vstd::prelude::*;

verus! {

/// Channels of a file.
pub const CHANNELS: u16 = 1;

/// Samples per second.
pub const SAMPLE_RATE: u32 = 16_000;

/// Bits of a sample.
pub const BITS_PER_SAMPLE: u16 = 16;

/// The most samples that the 32-bit sizes in a file leave room for.
pub const MAX_SAMPLES: u32 = 2_147_483_629;

/// A 16-bit field, low byte first.
pub open spec fn le16(value: int) -> Seq<u8> {
    seq![(value % 256) as u8, (value / 256 % 256) as u8]
}

/// A 32-bit field, low byte first.
pub open spec fn le32(value: int) -> Seq<u8> {
    le16(value % 65536) + le16(value / 65536)
}

/// The samples of the data chunk, in two's complement.
pub open spec fn data_bytes(samples: Seq<i16>) -> Seq<u8>
    decreases samples.len(),
{
    if samples.len() == 0 {
        Seq::empty()
    } else {
        data_bytes(samples.drop_last()) + le16(samples.last() as int % 65536)
    }
}

/// The bytes of a mono 16-bit PCM file at 16 kHz: the RIFF header, the format
/// chunk and the data chunk.
pub open spec fn wav_bytes(samples: Seq<i16>) -> Seq<u8> {
    let size = 2 * samples.len() as int;
    let riff = seq![0x52u8, 0x49, 0x46, 0x46] + le32(36 + size) + seq![0x57u8, 0x41, 0x56, 0x45];
    let format = seq![0x66u8, 0x6d, 0x74, 0x20] + le32(16) + le16(1) + le16(1) + le32(16_000)
        + le32(32_000) + le16(2) + le16(16);
    let data = seq![0x64u8, 0x61, 0x74, 0x61] + le32(size) + data_bytes(samples);
    riff + format + data
}

/// A 16-bit field, read low byte first, in two's complement.
pub open spec fn read_i16(low: u8, high: u8) -> int {
    let field = low + 256 * high;
    if field < 32768 {
        field as int
    } else {
        field - 65536
    }
}

proof fn lemma_data_bytes(samples: Seq<i16>)
    ensures
        data_bytes(samples).len() == 2 * samples.len(),
        forall|k: int|
            0 <= k < samples.len() ==> read_i16(
                data_bytes(samples)[2 * k],
                data_bytes(samples)[2 * k + 1],
            ) == #[trigger] samples[k],
    decreases samples.len(),
{
    if samples.len() > 0 {
        let fewer = samples.drop_last();
        lemma_data_bytes(fewer);
        assert forall|k: int| 0 <= k < samples.len() implies read_i16(
            data_bytes(samples)[2 * k],
            data_bytes(samples)[2 * k + 1],
        ) == #[trigger] samples[k] by {
            if k < fewer.len() {
                assert(fewer[k] == samples[k]);
            }
        }
    }
}

/// The samples can be read back from a file: behind a header of 44 bytes they
/// stand in their order, two bytes each, and nothing follows them.
pub proof fn samples_can_be_read_back(samples: Seq<i16>)
    ensures
        wav_bytes(samples).len() == 44 + 2 * samples.len(),
        forall|k: int|
            0 <= k < samples.len() ==> read_i16(
                wav_bytes(samples)[44 + 2 * k],
                wav_bytes(samples)[45 + 2 * k],
            ) == #[trigger] samples[k],
{
    lemma_data_bytes(samples);
    let file = wav_bytes(samples);
    let data = data_bytes(samples);
    assert forall|k: int| 0 <= k < samples.len() implies read_i16(
        file[44 + 2 * k],
        file[45 + 2 * k],
    ) == #[trigger] samples[k] by {
        assert(file[44 + 2 * k] == data[2 * k]);
        assert(file[45 + 2 * k] == data[2 * k + 1]);
    }
}

/// A 32-bit field, read low byte first.
pub open spec fn read_u32(file: Seq<u8>, at: int) -> int {
    file[at] + 256 * file[at + 1] + 65536 * file[at + 2] + 16777216 * file[at + 3]
}

/// A 16-bit field without a sign, read low byte first.
pub open spec fn read_u16(file: Seq<u8>, at: int) -> int {
    file[at] + 256 * file[at + 1]
}

/// The header can be read back: the sizes tell how long the file and its samples are, and
/// the format is one channel of 16-bit PCM at 16 kHz.
pub proof fn the_header_can_be_read_back(samples: Seq<i16>)
    requires
        samples.len() <= 2_147_483_629,
    ensures
        ({
            let file = wav_bytes(samples);
            &&& file.subrange(0, 4) == seq![0x52u8, 0x49, 0x46, 0x46]
            &&& read_u32(file, 4) == file.len() - 8
            &&& file.subrange(8, 16) == seq![0x57u8, 0x41, 0x56, 0x45, 0x66, 0x6d, 0x74, 0x20]
            &&& read_u32(file, 16) == 16
            &&& read_u16(file, 20) == 1
            &&& read_u16(file, 22) == 1
            &&& read_u32(file, 24) == 16_000
            &&& read_u32(file, 28) == 16_000 * 2
            &&& read_u16(file, 32) == 2
            &&& read_u16(file, 34) == 16
            &&& file.subrange(36, 40) == seq![0x64u8, 0x61, 0x74, 0x61]
            &&& read_u32(file, 40) == 2 * samples.len()
            &&& file.len() == 44 + 2 * samples.len()
        }),
{
    samples_can_be_read_back(samples);
    lemma_data_bytes(samples);
    let file = wav_bytes(samples);
    assert(file.subrange(0, 4) =~= seq![0x52u8, 0x49, 0x46, 0x46]);
    assert(file.subrange(8, 16) =~= seq![0x57u8, 0x41, 0x56, 0x45, 0x66, 0x6d, 0x74, 0x20]);
    assert(file.subrange(36, 40) =~= seq![0x64u8, 0x61, 0x74, 0x61]);
}

/// A file that is being written: `hound::WavWriter` on a vector.
#[verifier::external_body]
pub struct WavFile<'a> {
    writer: hound::WavWriter<std::io::Cursor<&'a mut Vec<u8>>>,
}

/// The samples that were written to the file so far.
pub uninterp spec fn wav_samples(file: WavFile) -> Seq<i16>;

/// What the vector under the file holds when the file is done with it.
pub uninterp spec fn wav_target(file: WavFile) -> Seq<u8>;

/// `hound::WavWriter::new` on an empty vector: the file has no samples yet. A
/// vector takes every write, so it does not fail for these formats.
#[verifier::external_body]
pub(crate) fn wav_open<'a>(
    bytes: &'a mut Vec<u8>,
    channels: u16,
    sample_rate: u32,
    bits_per_sample: u16,
) -> (file: WavFile<'a>)
    requires
        old(bytes)@.len() == 0,
        channels == CHANNELS,
        sample_rate == SAMPLE_RATE,
        bits_per_sample == BITS_PER_SAMPLE,
    ensures
        wav_samples(file) == Seq::<i16>::empty(),
        wav_target(file) == final(bytes)@,
{
    let sample_format = hound::SampleFormat::Int;
    let spec = hound::WavSpec { channels, sample_rate, bits_per_sample, sample_format };
    let cursor = std::io::Cursor::new(bytes);
    WavFile { writer: hound::WavWriter::new(cursor, spec).expect("wav writer") }
}

/// `hound::WavWriter::write_sample`: the sample follows those written before,
/// as long as the sizes in the file leave room for it.
#[verifier::external_body]
pub(crate) fn wav_write(file: &mut WavFile, sample: i16)
    requires
        wav_samples(*old(file)).len() < MAX_SAMPLES,
    ensures
        wav_samples(*final(file)) == wav_samples(*old(file)).push(sample),
        wav_target(*final(file)) == wav_target(*old(file)),
{
    file.writer.write_sample(sample).expect("write sample")
}

/// `hound::WavWriter::finalize`: the sizes in the headers are filled in, and the
/// vector is left with the whole file. It does not fail on a vector.
#[verifier::external_body]
pub(crate) fn wav_close(file: WavFile) -> (closed: bool)
    requires
        wav_samples(file).len() <= MAX_SAMPLES,
    ensures
        closed,
        closed ==> wav_target(file) == wav_bytes(wav_samples(file)),
{
    file.writer.finalize().map(|()| true).expect("finalize wav")
}

/// Writes a whole file.
pub fn write_wav(samples: &[i16]) -> (bytes: Vec<u8>)
    requires
        samples@.len() <= MAX_SAMPLES,
    ensures
        bytes@ == wav_bytes(samples@),
{
    let mut bytes: Vec<u8> = Vec::new();
    let mut file = wav_open(&mut bytes, CHANNELS, SAMPLE_RATE, BITS_PER_SAMPLE);
    let ghost target = wav_target(file);
    let mut i: usize = 0;
    while i < samples.len()
        invariant
            i <= samples@.len() <= MAX_SAMPLES,
            wav_samples(file) == samples@.take(i as int),
            wav_target(file) == target,
        decreases samples@.len() - i,
    {
        wav_write(&mut file, samples[i]);
        i = i + 1;
        assert(samples@.take(i as int) =~= samples@.take(i - 1).push(samples@[i - 1]));
    }
    assert(samples@.take(i as int) =~= samples@);
    let _closed = wav_close(file);
    bytes
}

} // verus!
