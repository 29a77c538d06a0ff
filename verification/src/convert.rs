//! What a conversion reads, what it writes, and the steps between.
pub use crate::conversion::{
    convert_file, convert_file_cancellable, convert_in_place, convert_in_place_to, is_cancelled,
    Conversion,
};
use crate::disk::{report, Failure};
use crate::journal::because;
use crate::naming::{lemma_stem_of, lemma_whole_stem};
use crate::path::{extension, extension_of, file_name, FilePath, PathView};
use crate::text::{ascii_lowercase, ascii_lowered, decimal, decimal_text, glue, same_text};
use crate::transaction::with_cause;
use vstd::prelude::*;

verus! {

/// The format of the output, as the user picks it.
#[derive(Debug, Clone, Copy, PartialEq, Eq, Structural)]
pub enum OutputFormat {
    /// The sample rate of the source, without resampling.
    Preserve,
    Pcm16_44100,
    Pcm16_48000,
    Pcm24_48000,
    Pcm24_96000,
}

impl OutputFormat {
    /// Every format, in the order in which they are offered.
    pub const ALL: [OutputFormat; 5] = [
        OutputFormat::Preserve,
        OutputFormat::Pcm16_44100,
        OutputFormat::Pcm16_48000,
        OutputFormat::Pcm24_48000,
        OutputFormat::Pcm24_96000,
    ];

    /// What a format is called.
    pub open spec fn name(self) -> Seq<char> {
        match self {
            OutputFormat::Preserve => "원본 유지 (무손실)"@,
            OutputFormat::Pcm16_44100 => "16bit · 44.1kHz (CD 표준)"@,
            OutputFormat::Pcm16_48000 => "16bit · 48kHz"@,
            OutputFormat::Pcm24_48000 => "24bit · 48kHz"@,
            OutputFormat::Pcm24_96000 => "24bit · 96kHz (하이레졸루션)"@,
        }
    }

    /// The sample rate a format asks for, if it asks for one.
    pub open spec fn rate(self) -> Option<u32> {
        match self {
            OutputFormat::Preserve => None,
            OutputFormat::Pcm16_44100 => Some(44_100),
            OutputFormat::Pcm16_48000 | OutputFormat::Pcm24_48000 => Some(48_000),
            OutputFormat::Pcm24_96000 => Some(96_000),
        }
    }

    /// The bits per sample a format asks for, if it asks for any.
    pub open spec fn bits(self) -> Option<u16> {
        match self {
            OutputFormat::Preserve => None,
            OutputFormat::Pcm16_44100 | OutputFormat::Pcm16_48000 => Some(16),
            OutputFormat::Pcm24_48000 | OutputFormat::Pcm24_96000 => Some(24),
        }
    }

    /// What a format is called.
    pub fn label(self) -> (r: &'static str)
        ensures
            r@ == self.name(),
    {
        match self {
            OutputFormat::Preserve => "원본 유지 (무손실)",
            OutputFormat::Pcm16_44100 => "16bit · 44.1kHz (CD 표준)",
            OutputFormat::Pcm16_48000 => "16bit · 48kHz",
            OutputFormat::Pcm24_48000 => "24bit · 48kHz",
            OutputFormat::Pcm24_96000 => "24bit · 96kHz (하이레졸루션)",
        }
    }

    /// The sample rate of the output, or `None` to keep the source's.
    pub fn target_rate(self) -> (r: Option<u32>)
        ensures
            r == self.rate(),
    {
        match self {
            OutputFormat::Preserve => None,
            OutputFormat::Pcm16_44100 => Some(44_100),
            OutputFormat::Pcm16_48000 | OutputFormat::Pcm24_48000 => Some(48_000),
            OutputFormat::Pcm24_96000 => Some(96_000),
        }
    }

    /// The bits per sample of the output, or `None` to go by the source's.
    pub fn target_bits(self) -> (r: Option<u16>)
        ensures
            r == self.bits(),
    {
        match self {
            OutputFormat::Preserve => None,
            OutputFormat::Pcm16_44100 | OutputFormat::Pcm16_48000 => Some(16),
            OutputFormat::Pcm24_48000 | OutputFormat::Pcm24_96000 => Some(24),
        }
    }
}

/// The extensions of the files that a job tries to convert. Whether a file can be read shows when
/// it is decoded.
pub const AUDIO_EXTENSIONS: [&'static str; 18] = [
    "mp3", "flac", "wav", "m4a", "aac", "ogg", "oga", "aiff", "aif", "aifc", "alac", "caf", "mp4",
    "mka", "mp1", "mp2", "wv", "ape",
];

/// The text is one of these extensions.
pub open spec fn is_known_extension(ext: Seq<char>) -> bool {
    exists|i: int| 0 <= i < AUDIO_EXTENSIONS@.len() && (#[trigger] AUDIO_EXTENSIONS@[i])@ == ext
}

/// A file is tried where its extension is one of these, whatever the case of its ASCII letters.
pub open spec fn is_audio(p: PathView) -> bool {
    match file_name(p) {
        Some(name) => match extension(name) {
            Some(ext) => is_known_extension(ascii_lowered(ext)),
            None => false,
        },
        None => false,
    }
}

/// Whether an extension is one of these, whatever the case of its ASCII letters.
pub fn is_audio_extension(ext: &str) -> (r: bool)
    ensures
        r == is_known_extension(ascii_lowered(ext@)),
{
    let low = ascii_lowercase(ext);
    let mut i: usize = 0;
    while i < AUDIO_EXTENSIONS.len()
        invariant
            i <= AUDIO_EXTENSIONS@.len(),
            low@ == ascii_lowered(ext@),
            forall|k: int| 0 <= k < i ==> (#[trigger] AUDIO_EXTENSIONS@[k])@ != low@,
        decreases AUDIO_EXTENSIONS@.len() - i,
    {
        if same_text(AUDIO_EXTENSIONS[i], low.as_str()) {
            assert(AUDIO_EXTENSIONS@[i as int]@ == low@);
            return true;
        }
        i = i + 1;
    }
    false
}

/// Whether a file is one that a job tries to convert.
pub fn is_audio_file(path: &FilePath) -> (r: bool)
    ensures
        r == is_audio(path@),
{
    if !path.has_name() {
        return false;
    }
    assert(path@.parts.last() == path.parts@.last()@);
    match extension_of(path.parts[path.parts.len() - 1].as_str()) {
        None => false,
        Some(ext) => is_audio_extension(ext.as_str()),
    }
}

// ---------------------------------------------------------------------------
// What a conversion produces
// ---------------------------------------------------------------------------

/// What is known of a source once it is opened.
#[derive(Debug, Clone, Copy, PartialEq, Eq, Structural)]
pub struct SourceInfo {
    pub sample_rate: u32,
    pub channels: usize,
    /// The bits per sample, where the codec tells.
    pub bits: Option<u32>,
}

/// What the output will be.
#[derive(Debug, Clone, Copy, PartialEq, Eq, Structural)]
pub struct Target {
    pub sample_rate: u32,
    pub bits: u16,
}

/// The output for a source: what the format asks for, and otherwise what the source has. A source
/// of more than 16 bits is kept in 24.
pub open spec fn target_of(format: OutputFormat, source: SourceInfo) -> Target {
    Target {
        sample_rate: match format.rate() {
            Some(rate) => rate,
            None => source.sample_rate,
        },
        bits: match format.bits() {
            Some(bits) => bits,
            None => match source.bits {
                Some(b) if b > 16 => 24,
                _ => 16,
            },
        },
    }
}

/// The output for a source.
pub fn target(format: OutputFormat, source: &SourceInfo) -> (r: Target)
    ensures
        r == target_of(format, *source),
{
    Target {
        sample_rate: match format.target_rate() {
            Some(rate) => rate,
            None => source.sample_rate,
        },
        bits: match format.target_bits() {
            Some(bits) => bits,
            None => match source.bits {
                Some(b) => if b > 16 {
                    24
                } else {
                    16
                },
                None => 16,
            },
        },
    }
}

/// Keeping the source's format never resamples.
pub proof fn preserving_keeps_the_rate(source: SourceInfo)
    ensures
        target_of(OutputFormat::Preserve, source).sample_rate == source.sample_rate,
{
}

/// Every format is written with 16 or 24 bits, which can be written.
pub proof fn every_target_can_be_written(format: OutputFormat, source: SourceInfo)
    ensures
        ({
            let bits = target_of(format, source).bits;
            &&& bits == 16 || bits == 24
            &&& peak_of(bits) is Some
        }),
{
}

/// What an opened track tells of its source.
pub fn source_info(channels: Option<usize>, sample_rate: Option<u32>, bits: Option<u32>) -> (r:
    Result<SourceInfo, &'static str>)
    ensures
        match r {
            Ok(info) => channels == Some(info.channels) && sample_rate == Some(info.sample_rate)
                && bits == info.bits,
            Err(text) => if channels is None {
                text@ == "채널 정보 없음"@
            } else {
                sample_rate is None && text@ == "샘플레이트 정보 없음"@
            },
        },
{
    match (channels, sample_rate) {
        (None, _) => Err("채널 정보 없음"),
        (_, None) => Err("샘플레이트 정보 없음"),
        (Some(channels), Some(sample_rate)) => Ok(SourceInfo { sample_rate, channels, bits }),
    }
}

/// The greatest sample value of a bit depth that can be written.
pub open spec fn peak_of(bits: u16) -> Option<i32> {
    if bits == 16 {
        Some(32_767)
    } else if bits == 24 {
        Some(8_388_607)
    } else {
        None
    }
}

/// The header of a WAV file.
#[derive(Debug, Clone, Copy, PartialEq, Eq, Structural)]
pub struct WavHeader {
    pub channels: u16,
    pub sample_rate: u32,
    pub bits_per_sample: u16,
    /// The sample value that stands for full scale.
    pub peak: i32,
}

/// The header of a WAV file, or why the file cannot be written. Only 16 and 24 bits can be.
pub fn wav_header(channels: usize, sample_rate: u32, bits: u16) -> (r: Result<WavHeader, String>)
    ensures
        match r {
            Ok(header) => {
                &&& peak_of(bits) == Some(header.peak)
                &&& header.channels == channels as u16
                &&& header.sample_rate == sample_rate
                &&& header.bits_per_sample == bits
            },
            Err(text) => peak_of(bits) is None && text@ == "지원하지 않는 비트심도: "@ + decimal(
                bits as nat,
            ),
        },
{
    let peak: i32 = if bits == 16 {
        32_767
    } else if bits == 24 {
        8_388_607
    } else {
        return Err(glue("지원하지 않는 비트심도: ", decimal_text(bits as u128).as_str()));
    };
    Ok(
        WavHeader {
            channels: #[verifier::truncate]
            (channels as u16),
            sample_rate,
            bits_per_sample: bits,
            peak,
        },
    )
}

// ---------------------------------------------------------------------------
// Samples
// ---------------------------------------------------------------------------

/// How many whole frames there are.
pub open spec fn frame_count(samples: nat, channels: nat) -> nat {
    samples / channels
}

/// The samples of a frame stand side by side.
pub open spec fn is_planar<T>(planar: Seq<Seq<T>>, samples: Seq<T>, channels: nat) -> bool {
    &&& planar.len() == channels
    &&& forall|c: int|
        0 <= c < channels ==> (#[trigger] planar[c]).len() == frame_count(samples.len(), channels)
    &&& forall|c: int, f: int|
        0 <= c < channels && 0 <= f < frame_count(samples.len(), channels) ==> #[trigger] planar[c][f]
            == samples[f * channels + c]
}

/// What a list of channels holds.
pub open spec fn channels_of<T>(v: Seq<Vec<T>>) -> Seq<Seq<T>> {
    Seq::new(v.len(), |i: int| v[i]@)
}

proof fn lemma_frame_bound(f: int, c: int, frames: int, channels: int, len: int)
    requires
        0 <= f < frames,
        0 <= c < channels,
        frames * channels <= len,
    ensures
        0 <= f * channels <= f * channels + c < len,
{
    assert((f + 1) * channels <= frames * channels) by (nonlinear_arith)
        requires
            f + 1 <= frames,
            0 < channels,
    ;
    assert((f + 1) * channels == f * channels + channels) by (nonlinear_arith);
    assert(0 <= f * channels) by (nonlinear_arith)
        requires
            0 <= f,
            0 < channels,
    ;
}

/// Takes the channels of interleaved samples apart. Samples behind the last whole frame are left
/// out.
pub fn deinterleave<T: Copy>(samples: &[T], channels: usize) -> (r: Vec<Vec<T>>)
    requires
        channels > 0,
    ensures
        is_planar(channels_of(r@), samples@, channels as nat),
{
    let total = samples.len();
    let frames = total / channels;
    let mut planar: Vec<Vec<T>> = Vec::new();
    let mut c: usize = 0;
    assert(frames * channels <= samples@.len()) by (nonlinear_arith)
        requires
            frames == samples@.len() / channels as nat,
            channels > 0,
    ;
    while c < channels
        invariant
            0 < channels,
            c <= channels,
            planar@.len() == c,
            total == samples@.len(),
            frames == samples@.len() / channels as nat,
            frames * channels <= samples@.len(),
            forall|k: int| 0 <= k < c ==> (#[trigger] planar@[k])@.len() == frames,
            forall|k: int, f: int|
                0 <= k < c && 0 <= f < frames ==> #[trigger] planar@[k]@[f] == samples@[f * channels
                    + k],
        decreases channels - c,
    {
        let mut one: Vec<T> = Vec::new();
        let mut f: usize = 0;
        while f < frames
            invariant
                c < channels,
                f <= frames,
                total == samples@.len(),
                frames * channels <= samples@.len(),
                one@.len() == f,
                forall|k: int| 0 <= k < f ==> #[trigger] one@[k] == samples@[k * channels + c],
            decreases frames - f,
        {
            proof {
                lemma_frame_bound(
                    f as int,
                    c as int,
                    frames as int,
                    channels as int,
                    samples@.len() as int,
                );
            }
            one.push(samples[f * channels + c]);
            f = f + 1;
        }
        planar.push(one);
        c = c + 1;
    }
    assert(is_planar(channels_of(planar@), samples@, channels as nat)) by {
        let p = channels_of(planar@);
        assert forall|k: int, f: int|
            0 <= k < channels && 0 <= f < frame_count(
                samples@.len(),
                channels as nat,
            ) implies #[trigger] p[k][f] == samples@[f * channels as nat + k] by {
            assert(p[k][f] == planar@[k]@[f]);
        }
    }
    planar
}

/// The samples of all channels, frame by frame.
pub open spec fn interleaved<T>(planar: Seq<Seq<T>>, frames: nat) -> Seq<T>
    decreases frames,
{
    if frames == 0 {
        Seq::empty()
    } else {
        interleaved(planar, (frames - 1) as nat) + Seq::new(
            planar.len(),
            |c: int| planar[c][frames - 1],
        )
    }
}

/// Puts channels together again, frame by frame.
pub fn interleave<T: Copy>(planar: &Vec<Vec<T>>) -> (r: Vec<T>)
    requires
        planar@.len() > 0,
        forall|c: int| 0 <= c < planar@.len() ==> (#[trigger] planar@[c])@.len() == planar@[0]@.len(),
    ensures
        r@ == interleaved(channels_of(planar@), planar@[0]@.len()),
{
    let frames = planar[0].len();
    let channels = planar.len();
    let mut r: Vec<T> = Vec::new();
    let mut f: usize = 0;
    let ghost p = channels_of(planar@);
    while f < frames
        invariant
            f <= frames,
            channels == planar@.len(),
            p == channels_of(planar@),
            forall|c: int| 0 <= c < planar@.len() ==> (#[trigger] planar@[c])@.len() == frames,
            r@ == interleaved(p, f as nat),
        decreases frames - f,
    {
        let mut c: usize = 0;
        let ghost before = r@;
        let ghost row = Seq::new(p.len(), |k: int| p[k][f as int]);
        assert(row.take(0) =~= Seq::<T>::empty());
        assert(before + row.take(0) =~= before);
        while c < channels
            invariant
                f < frames,
                c <= channels,
                channels == planar@.len(),
                p == channels_of(planar@),
                row == Seq::new(p.len(), |k: int| p[k][f as int]),
                forall|k: int| 0 <= k < planar@.len() ==> (#[trigger] planar@[k])@.len() == frames,
                r@ == before + row.take(c as int),
            decreases channels - c,
        {
            r.push(planar[c][f]);
            assert(row.take(c + 1) =~= row.take(c as int).push(row[c as int]));
            assert(r@ =~= before + row.take(c + 1));
            c = c + 1;
        }
        assert(row.take(c as int) =~= row);
        f = f + 1;
        assert(r@ =~= interleaved(p, f as nat));
    }
    r
}

/// The samples of one channel, of all whole frames.
pub open spec fn channel<T>(samples: Seq<T>, channels: nat, c: int) -> Seq<T> {
    Seq::new(frame_count(samples.len(), channels), |f: int| samples[f * channels + c])
}

/// What comes of samples whose channels go through `f`, each by itself.
pub open spec fn resampled<T>(
    samples: Seq<T>,
    channels: nat,
    f: spec_fn(Seq<T>) -> Seq<T>,
) -> Seq<T> {
    let planar = Seq::new(channels, |c: int| f(channel(samples, channels, c)));
    interleaved(planar, planar[0].len())
}

proof fn lemma_frames<T>(planar: Seq<Seq<T>>, frames: nat)
    ensures
        interleaved(planar, frames).len() == frames * planar.len(),
        forall|c: int, f: int|
            0 <= c < planar.len() && 0 <= f < frames ==> interleaved(planar, frames)[f
                * planar.len() + c] == #[trigger] planar[c][f],
    decreases frames,
{
    let n = planar.len() as int;
    if frames == 0 {
        assert(0 * n == 0) by (nonlinear_arith);
    } else {
        let k = (frames - 1) as nat;
        lemma_frames(planar, k);
        let front = interleaved(planar, k);
        assert(frames * n == k * n + n) by (nonlinear_arith)
            requires
                frames == k + 1,
        ;
        assert forall|c: int, f: int| 0 <= c < n && 0 <= f < frames implies interleaved(
            planar,
            frames,
        )[f * planar.len() + c] == #[trigger] planar[c][f] by {
            if f < k {
                lemma_frame_bound(f, c, k as int, n, k * n);
            }
        }
    }
}

proof fn lemma_whole_frames(frames: nat, channels: nat)
    requires
        channels > 0,
    ensures
        frame_count(frames * channels, channels) == frames,
        (frames * channels) % channels == 0,
{
    assert(frame_count(frames * channels, channels) == frames) by (nonlinear_arith)
        requires
            channels > 0,
    ;
    assert((frames * channels) % channels == 0) by (nonlinear_arith)
        requires
            channels > 0,
    ;
}

/// However a resampler changes the samples of a channel, as long as it treats each channel by
/// itself and makes as many frames of each: the channels do not mix, there are whole frames only,
/// and samples behind the last whole frame have no influence.
pub proof fn channels_do_not_mix<T>(
    samples: Seq<T>,
    channels: nat,
    f: spec_fn(Seq<T>) -> Seq<T>,
    c: int,
)
    requires
        0 <= c < channels,
        forall|k: int|
            0 <= k < channels ==> f(#[trigger] channel(samples, channels, k)).len() == f(
                channel(samples, channels, 0),
            ).len(),
    ensures
        resampled(samples, channels, f).len() % channels == 0,
        channel(resampled(samples, channels, f), channels, c) == resampled(
            channel(samples, channels, c),
            1,
            f,
        ),
        resampled(
            samples.take((frame_count(samples.len(), channels) * channels) as int),
            channels,
            f,
        ) == resampled(samples, channels, f),
{
    let planar = Seq::new(channels, |k: int| f(channel(samples, channels, k)));
    let frames = planar[0].len();
    let out = resampled(samples, channels, f);
    lemma_frames(planar, frames);
    lemma_whole_frames(frames, channels);
    let mine = channel(samples, channels, c);
    assert(planar[c] == f(mine) && planar[c].len() == frames);
    assert(channel(out, channels, c) =~= f(mine)) by {
        assert forall|t: int| 0 <= t < frames implies out[t * channels + c]
            == #[trigger] planar[c][t] by {}
    }
    let one = Seq::new(1, |k: int| f(channel(mine, 1, k)));
    assert(channel(mine, 1, 0) =~= mine);
    lemma_frames(one, one[0].len());
    let alone = resampled(mine, 1, f);
    assert(alone == interleaved(one, one[0].len()));
    assert(one[0] == f(mine));
    assert(alone.len() == f(mine).len()) by {
        assert(one[0].len() * one.len() == one[0].len()) by (nonlinear_arith)
            requires
                one.len() == 1,
        ;
    }
    assert(alone =~= f(mine)) by {
        assert forall|t: int| 0 <= t < f(mine).len() implies alone[t] == #[trigger] one[0][t] by {
            assert(t * one.len() + 0 == t) by (nonlinear_arith)
                requires
                    one.len() == 1,
            ;
        }
    }
    let all = frame_count(samples.len(), channels);
    assert(0 <= all * channels <= samples.len()) by (nonlinear_arith)
        requires
            all == samples.len() / channels,
            channels > 0,
    ;
    let whole = samples.take((all * channels) as int);
    lemma_whole_frames(all, channels);
    assert forall|k: int| 0 <= k < channels implies channel(whole, channels, k) == #[trigger] channel(
        samples,
        channels,
        k,
    ) by {
        assert forall|t: int| 0 <= t < all implies #[trigger] channel(whole, channels, k)[t]
            == channel(samples, channels, k)[t] by {
            lemma_frame_bound(t, k, all as int, channels as int, (all * channels) as int);
        }
        assert(channel(whole, channels, k) =~= channel(samples, channels, k));
    }
    assert(Seq::new(channels, |k: int| f(channel(whole, channels, k))) =~= planar);
}

/// Taking samples apart gives their channels.
pub proof fn taking_apart_gives_channels<T>(planar: Seq<Seq<T>>, samples: Seq<T>, channels: nat)
    requires
        is_planar(planar, samples, channels),
    ensures
        planar == Seq::new(channels, |c: int| channel(samples, channels, c)),
{
    assert forall|c: int| 0 <= c < channels implies planar[c] == channel(samples, channels, c) by {
        assert forall|f: int| 0 <= f < planar[c].len() implies planar[c][f] == channel(
            samples,
            channels,
            c,
        )[f] by {}
        assert(planar[c] =~= channel(samples, channels, c));
    }
    assert(planar =~= Seq::new(channels, |c: int| channel(samples, channels, c)));
}

/// Taking samples apart and putting them together again gives back all whole frames.
pub proof fn interleaving_undoes_deinterleaving<T>(
    planar: Seq<Seq<T>>,
    samples: Seq<T>,
    channels: nat,
    frames: nat,
)
    requires
        channels > 0,
        is_planar(planar, samples, channels),
        frames <= frame_count(samples.len(), channels),
    ensures
        interleaved(planar, frames) == samples.take((frames * channels) as int),
    decreases frames,
{
    let all = frame_count(samples.len(), channels);
    assert(all * channels <= samples.len()) by (nonlinear_arith)
        requires
            all == samples.len() / channels,
            channels > 0,
    ;
    assert(frames * channels <= all * channels) by (nonlinear_arith)
        requires
            frames <= all,
    ;
    if frames == 0 {
        assert(frames * channels == 0) by (nonlinear_arith)
            requires
                frames == 0,
        ;
        assert(samples.take(0) =~= Seq::<T>::empty());
    } else {
        let n = (frames - 1) as nat;
        interleaving_undoes_deinterleaving(planar, samples, channels, n);
        assert(frames * channels == n * channels + channels) by (nonlinear_arith)
            requires
                frames == n + 1,
        ;
        assert(0 <= n * channels) by (nonlinear_arith);
        let row = Seq::new(planar.len(), |c: int| planar[c][frames - 1]);
        assert forall|c: int| 0 <= c < channels implies row[c] == samples[n * channels + c] by {
            assert(planar[c][n as int] == samples[n as int * channels + c]);
        }
        assert(interleaved(planar, frames) =~= samples.take((frames * channels) as int));
    }
}

/// A run of frames that is resampled at once.
#[derive(Debug, Clone, Copy, PartialEq, Eq, Structural)]
pub struct Block {
    pub from: usize,
    pub to: usize,
    /// The block has the full length.
    pub full: bool,
}

/// How many frames a full block has.
pub const BLOCK_FRAMES: usize = 1024;

/// Blocks follow each other from the first frame to the last; all have the full length, but for
/// one at the end that holds what is left.
pub open spec fn are_blocks(blocks: Seq<Block>, frames: nat) -> bool {
    &&& forall|i: int|
        0 <= i < blocks.len() ==> {
            let b = #[trigger] blocks[i];
            &&& b.from == i * 1024
            &&& b.full == (b.to == b.from + 1024)
            &&& b.full <==> (i + 1) * 1024 <= frames
            &&& !b.full ==> b.from < b.to == frames
        }
    &&& blocks.len() * 1024 >= frames
    &&& blocks.len() > 0 ==> (blocks.len() - 1) * 1024 < frames
}

/// The blocks in which a number of frames is resampled.
pub fn blocks(frames: usize) -> (r: Vec<Block>)
    ensures
        are_blocks(r@, frames as nat),
{
    let mut r: Vec<Block> = Vec::new();
    let mut at: usize = 0;
    while frames - at >= BLOCK_FRAMES
        invariant
            at <= frames,
            at == r@.len() * 1024,
            forall|i: int|
                0 <= i < r@.len() ==> {
                    let b = #[trigger] r@[i];
                    &&& b.from == i * 1024
                    &&& b.full && b.to == b.from + 1024
                    &&& (i + 1) * 1024 <= frames
                },
        decreases frames - at,
    {
        r.push(Block { from: at, to: at + BLOCK_FRAMES, full: true });
        at = at + BLOCK_FRAMES;
    }
    if at < frames {
        r.push(Block { from: at, to: frames, full: false });
    }
    r
}

/// Every frame is resampled once: it lies in one block and in no other.
pub proof fn blocks_cover_every_frame_once(blocks: Seq<Block>, frames: nat, f: int)
    requires
        are_blocks(blocks, frames),
        0 <= f < frames,
    ensures
        0 <= f / 1024 < blocks.len(),
        blocks[f / 1024].from <= f < blocks[f / 1024].to,
        forall|i: int|
            0 <= i < blocks.len() && (#[trigger] blocks[i]).from <= f < blocks[i].to ==> i == f
                / 1024,
{
}

// ---------------------------------------------------------------------------
// Decoding
// ---------------------------------------------------------------------------

/// What reading the next packet, or decoding it, came to.
#[derive(Debug)]
pub enum Packet<S> {
    /// A packet of a track was read.
    Read { track: u32 },
    /// The stream is at its end.
    End,
    /// The tracks change from here on.
    Reset,
    /// The packet was decoded into so many samples.
    Decoded { samples: usize },
    /// The packet is damaged.
    Damaged,
    Failed(S),
    Cancelled,
}

impl View for Packet<String> {
    type V = Packet<Seq<char>>;

    open spec fn view(&self) -> Packet<Seq<char>> {
        match self {
            Packet::Read { track } => Packet::Read { track: *track },
            Packet::End => Packet::End,
            Packet::Reset => Packet::Reset,
            Packet::Decoded { samples } => Packet::Decoded { samples: *samples },
            Packet::Damaged => Packet::Damaged,
            Packet::Failed(message) => Packet::Failed(message@),
            Packet::Cancelled => Packet::Cancelled,
        }
    }
}

/// What a decoding asks for next.
#[derive(Debug, Clone, Copy, PartialEq, Eq, Structural)]
pub enum DecodeStage {
    /// The next packet.
    Read,
    /// The samples of the packet that was read.
    Decode,
    Over,
}

/// The decoding of one track.
#[verifier::ext_equal]
pub struct DecodingView {
    pub track: u32,
    pub stage: DecodeStage,
    /// There were samples.
    pub heard: bool,
    pub failure: Option<Failure<Seq<char>>>,
}

impl DecodingView {
    pub open spec fn start(track: u32) -> DecodingView {
        DecodingView { track, stage: DecodeStage::Read, heard: false, failure: None }
    }

    pub open spec fn fail(self, text: Seq<char>) -> DecodingView {
        DecodingView {
            stage: DecodeStage::Over,
            failure: Some(Failure { cancelled: false, text }),
            ..self
        }
    }

    /// Packets of other tracks and damaged packets are passed over. The stream ends at its end,
    /// or where its tracks change.
    pub open spec fn step(self, p: Packet<Seq<char>>) -> DecodingView {
        match (self.stage, p) {
            (DecodeStage::Over, _) => self,
            (_, Packet::Cancelled) => DecodingView {
                stage: DecodeStage::Over,
                failure: Some(Failure { cancelled: true, text: "변환이 취소되었습니다"@ }),
                ..self
            },
            (DecodeStage::Read, Packet::Read { track }) => if track == self.track {
                DecodingView { stage: DecodeStage::Decode, ..self }
            } else {
                self
            },
            (DecodeStage::Read, Packet::Failed(message)) => self.fail(
                because("패킷 읽기 실패"@, message),
            ),
            (DecodeStage::Read, Packet::End) | (DecodeStage::Read, Packet::Reset) => if self.heard {
                DecodingView { stage: DecodeStage::Over, ..self }
            } else {
                self.fail("디코딩된 오디오 샘플이 없음"@)
            },
            (DecodeStage::Decode, Packet::Decoded { samples }) => DecodingView {
                stage: DecodeStage::Read,
                heard: self.heard || samples > 0,
                ..self
            },
            (DecodeStage::Decode, Packet::Failed(message)) => self.fail(
                because("디코딩 실패"@, message),
            ),
            (DecodeStage::Decode, Packet::Damaged) => DecodingView {
                stage: DecodeStage::Read,
                ..self
            },
            _ => self,
        }
    }
}

/// A decoding succeeds only where there were samples.
pub proof fn silence_is_not_success(v: DecodingView, p: Packet<Seq<char>>)
    requires
        v.stage != DecodeStage::Over,
        v.failure is None,
        v.step(p).stage == DecodeStage::Over,
    ensures
        v.step(p).failure is None ==> v.heard && (p is End || p is Reset),
{
}

/// The decoding of one track: which packets count, and when it ends.
#[derive(Debug)]
pub struct Decoding {
    pub track: u32,
    pub stage: DecodeStage,
    pub heard: bool,
    pub failure: Option<Failure<String>>,
}

impl View for Decoding {
    type V = DecodingView;

    open spec fn view(&self) -> DecodingView {
        DecodingView {
            track: self.track,
            stage: self.stage,
            heard: self.heard,
            failure: report(self.failure),
        }
    }
}

impl Decoding {
    /// Begins to decode the track that the file offers, if it offers one.
    pub fn new(track: Option<u32>) -> (r: Result<Decoding, &'static str>)
        ensures
            match r {
                Ok(decoding) => track matches Some(id) && decoding@ == DecodingView::start(id),
                Err(text) => track is None && text@ == "오디오 트랙을 찾을 수 없음"@,
            },
    {
        match track {
            Some(track) => Ok(
                Decoding { track, stage: DecodeStage::Read, heard: false, failure: None },
            ),
            None => Err("오디오 트랙을 찾을 수 없음"),
        }
    }

    fn fail(&mut self, text: String)
        ensures
            final(self)@ == old(self)@.fail(text@),
    {
        self.stage = DecodeStage::Over;
        self.failure = Some(Failure { cancelled: false, text });
    }

    /// Takes the next step, once a packet was read or decoded.
    pub fn resume(&mut self, p: &Packet<String>)
        ensures
            final(self)@ == old(self)@.step(p@),
    {
        if self.stage == DecodeStage::Over {
            return;
        }
        if matches!(p, Packet::Cancelled) {
            self.stage = DecodeStage::Over;
            self.failure =
            Some(Failure { cancelled: true, text: "변환이 취소되었습니다".to_owned() });
            return;
        }
        match self.stage {
            DecodeStage::Read => match p {
                Packet::Read { track } => if *track == self.track {
                    self.stage = DecodeStage::Decode;
                },
                Packet::Failed(message) => self.fail(
                    with_cause("패킷 읽기 실패", message.as_str()),
                ),
                Packet::End | Packet::Reset => if self.heard {
                    self.stage = DecodeStage::Over;
                } else {
                    self.fail("디코딩된 오디오 샘플이 없음".to_owned());
                },
                _ => {},
            },
            DecodeStage::Decode => match p {
                Packet::Decoded { samples } => {
                    self.heard = self.heard || *samples > 0;
                    self.stage = DecodeStage::Read;
                },
                Packet::Failed(message) => self.fail(
                    with_cause("디코딩 실패", message.as_str()),
                ),
                Packet::Damaged => {
                    self.stage = DecodeStage::Read;
                },
                _ => {},
            },
            DecodeStage::Over => {},
        }
    }
}

/// The extensions by which sounds are known.
pub open spec fn is_sound_extension(ext: Seq<char>) -> bool {
    ||| ext == "mp3"@
    ||| ext == "flac"@
    ||| ext == "wav"@
    ||| ext == "m4a"@
    ||| ext == "aac"@
    ||| ext == "ogg"@
    ||| ext == "oga"@
    ||| ext == "aiff"@
    ||| ext == "aif"@
    ||| ext == "aifc"@
    ||| ext == "alac"@
    ||| ext == "caf"@
    ||| ext == "mp4"@
    ||| ext == "mka"@
    ||| ext == "mp1"@
    ||| ext == "mp2"@
    ||| ext == "wv"@
    ||| ext == "ape"@
}

proof fn lemma_sound_extensions(ext: Seq<char>)
    ensures
        is_known_extension(ext) <==> is_sound_extension(ext),
{
    let all = AUDIO_EXTENSIONS@;
    assert(all.len() == 18);
    if is_known_extension(ext) {
        let i = choose|i: int| 0 <= i < all.len() && (#[trigger] all[i])@ == ext;
        assert(0 <= i < 18);
    }
    if is_sound_extension(ext) {
        assert(all[0]@ == "mp3"@ && all[1]@ == "flac"@ && all[2]@ == "wav"@ && all[3]@ == "m4a"@);
        assert(all[4]@ == "aac"@ && all[5]@ == "ogg"@ && all[6]@ == "oga"@ && all[7]@ == "aiff"@);
        assert(all[8]@ == "aif"@ && all[9]@ == "aifc"@ && all[10]@ == "alac"@ && all[11]@
            == "caf"@);
        assert(all[12]@ == "mp4"@ && all[13]@ == "mka"@ && all[14]@ == "mp1"@ && all[15]@
            == "mp2"@);
        assert(all[16]@ == "wv"@ && all[17]@ == "ape"@);
    }
}

/// A file is a sound by what stands behind the last dot of its name, whatever the case of the
/// letters; a name without such a dot is none.
pub proof fn sounds_are_known_by_their_extensions(p: PathView, s: Seq<char>, ext: Seq<char>)
    requires
        p.parts.len() > 0,
        s.len() > 0,
        forall|i: int| 0 <= i < ext.len() ==> #[trigger] ext[i] != '.',
    ensures
        p.parts[p.parts.len() - 1] == s + seq!['.'] + ext && (s != seq!['.'] || ext.len() > 0) ==> (
        is_audio(p) <==> is_sound_extension(ascii_lowered(ext))),
        p.parts[p.parts.len() - 1] == ext ==> !is_audio(p),
        p.parts[p.parts.len() - 1] == seq!['.'] + ext ==> !is_audio(p),
{
    let last = p.parts.last();
    lemma_sound_extensions(ascii_lowered(ext));
    if last == s + seq!['.'] + ext && (s != seq!['.'] || ext.len() > 0) {
        lemma_stem_of(s, ext);
        if ext.len() == 0 {
            reveal_strlit("mp3");
            reveal_strlit("flac");
            reveal_strlit("wav");
            reveal_strlit("m4a");
            reveal_strlit("aac");
            reveal_strlit("ogg");
            reveal_strlit("oga");
            reveal_strlit("aiff");
            reveal_strlit("aif");
            reveal_strlit("aifc");
            reveal_strlit("alac");
            reveal_strlit("caf");
            reveal_strlit("mp4");
            reveal_strlit("mka");
            reveal_strlit("mp1");
            reveal_strlit("mp2");
            reveal_strlit("wv");
            reveal_strlit("ape");
        }
        assert(last.len() >= 2);
        if last == seq!['.', '.'] {
            assert(s =~= seq!['.'] && ext.len() == 0) by {
                assert(last.len() == s.len() + 1 + ext.len());
                assert(last[0] == s[0]);
            }
        }
        assert(last != seq!['.']) by {
            assert(seq!['.'].len() == 1);
        }
    }
    if last == ext {
        lemma_whole_stem(ext);
    }
    if last == seq!['.'] + ext {
        assert forall|i: int| 0 < i < last.len() implies #[trigger] last[i] != '.' by {
            assert(last[i] == ext[i - 1]);
        }
        lemma_whole_stem(last);
    }
}

/// ASCII letters lose their case one by one, and every other character stays what it is.
pub proof fn only_ascii_letters_lose_their_case(s: Seq<char>, i: int)
    requires
        0 <= i < s.len(),
    ensures
        ascii_lowered(s).len() == s.len(),
        'A' <= s[i] <= 'Z' ==> ascii_lowered(s)[i] as int == s[i] as int + 32,
        !('A' <= s[i] <= 'Z') ==> ascii_lowered(s)[i] == s[i],
{
}

/// What each format asks for: a rate in hertz and a number of bits, or those of the source.
pub proof fn formats_ask_for_what_they_say()
    ensures
        OutputFormat::Preserve.rate() is None && OutputFormat::Preserve.bits() is None,
        OutputFormat::Pcm16_44100.rate() == Some(44_100u32) && OutputFormat::Pcm16_44100.bits()
            == Some(16u16),
        OutputFormat::Pcm16_48000.rate() == Some(48_000u32) && OutputFormat::Pcm16_48000.bits()
            == Some(16u16),
        OutputFormat::Pcm24_48000.rate() == Some(48_000u32) && OutputFormat::Pcm24_48000.bits()
            == Some(24u16),
        OutputFormat::Pcm24_96000.rate() == Some(96_000u32) && OutputFormat::Pcm24_96000.bits()
            == Some(24u16),
{
}

/// Full scale is the greatest number that the bits of a sample can hold, and no bit depth but these
/// two can be written.
pub proof fn full_scale_fills_the_bits(bits: u16)
    ensures
        peak_of(bits) is Some <==> bits == 16 || bits == 24,
        peak_of(16) == Some((0x8000 - 1) as i32),
        peak_of(24) == Some((0x80_0000 - 1) as i32),
{
}

/// Packets of other tracks are passed over: the next packet is read, as if nothing had been there.
pub proof fn other_tracks_are_passed_over(v: DecodingView, track: u32)
    requires
        v.stage == DecodeStage::Read,
    ensures
        track != v.track ==> v.step(Packet::Read { track }) == v,
        track == v.track ==> v.step(Packet::Read { track }).stage == DecodeStage::Decode,
        track == v.track ==> v.step(Packet::Read { track }).failure == v.failure,
{
}

/// A damaged packet costs only itself: the next is read, and what was heard so far still counts.
pub proof fn damaged_packets_are_passed_over(v: DecodingView, samples: usize)
    requires
        v.stage == DecodeStage::Decode,
    ensures
        v.step(Packet::Damaged) == (DecodingView { stage: DecodeStage::Read, ..v }),
        v.step(Packet::Decoded { samples }) == (DecodingView {
            stage: DecodeStage::Read,
            heard: v.heard || samples > 0,
            ..v
        }),
{
}

/// A decoding ends with the stream, or where the tracks change: with success where it has heard
/// anything, and otherwise with an error.
pub proof fn decodings_end_with_the_stream(v: DecodingView, end: Packet<Seq<char>>)
    requires
        v.stage == DecodeStage::Read,
        v.failure is None,
        end is End || end is Reset,
    ensures
        v.step(end).stage == DecodeStage::Over,
        v.heard ==> v.step(end).failure is None,
        !v.heard ==> v.step(end).failure == Some(
            Failure { cancelled: false, text: "디코딩된 오디오 샘플이 없음"@ },
        ),
{
}

/// A packet that cannot be read or decoded, and a user who cancels, end a decoding at once.
pub proof fn decodings_end_with_their_errors(v: DecodingView, message: Seq<char>)
    requires
        v.stage != DecodeStage::Over,
    ensures
        v.step(Packet::Failed(message)).stage == DecodeStage::Over,
        v.step(Packet::Failed(message)).failure == Some(
            Failure {
                cancelled: false,
                text: (if v.stage == DecodeStage::Read {
                    "패킷 읽기 실패"@
                } else {
                    "디코딩 실패"@
                }) + ": "@ + message,
            },
        ),
        v.step(Packet::Cancelled).stage == DecodeStage::Over,
        v.step(Packet::Cancelled).failure matches Some(failure) && failure.cancelled,
{
}

/// Every format is called by its bits and its rate, and is offered once.
pub proof fn formats_are_called_by_what_they_are(format: OutputFormat)
    ensures
        OutputFormat::Preserve.name() == "원본 유지 (무손실)"@,
        OutputFormat::Pcm16_44100.name() == "16bit · 44.1kHz (CD 표준)"@,
        OutputFormat::Pcm16_48000.name() == "16bit · 48kHz"@,
        OutputFormat::Pcm24_48000.name() == "24bit · 48kHz"@,
        OutputFormat::Pcm24_96000.name() == "24bit · 96kHz (하이레졸루션)"@,
        OutputFormat::ALL@.len() == 5,
        OutputFormat::ALL@.contains(format),
        OutputFormat::ALL@[0] == OutputFormat::Preserve,
{
    let all = OutputFormat::ALL@;
    assert(all[0] == OutputFormat::Preserve && all[1] == OutputFormat::Pcm16_44100);
    assert(all[2] == OutputFormat::Pcm16_48000 && all[3] == OutputFormat::Pcm24_48000);
    assert(all[4] == OutputFormat::Pcm24_96000);
}

/// Where the format of the source is kept, its rate is, and its samples are written with 24 bits
/// where they have more than 16, and otherwise with 16. Every other format is written as it says,
/// whatever the source has.
pub proof fn results_have_the_format_that_was_asked_for(format: OutputFormat, source: SourceInfo)
    ensures
        format == OutputFormat::Preserve ==> target_of(format, source).sample_rate
            == source.sample_rate,
        format == OutputFormat::Preserve ==> target_of(format, source).bits == (match source.bits {
            Some(bits) => if bits > 16 {
                24
            } else {
                16
            },
            None => 16int,
        }),
        format != OutputFormat::Preserve ==> format.rate() == Some(
            target_of(format, source).sample_rate,
        ),
        format != OutputFormat::Preserve ==> format.bits() == Some(target_of(format, source).bits),
{
}

/// Samples stand frame by frame, those of a frame in the order of the channels. Taking them apart
/// gives all whole frames of each channel in turn, and putting channels together is the reverse.
pub proof fn samples_stand_frame_by_frame<T>(
    planar: Seq<Seq<T>>,
    samples: Seq<T>,
    channels: nat,
    c: int,
    f: int,
)
    requires
        0 <= c < channels,
    ensures
        is_planar(planar, samples, channels) ==> {
            &&& planar.len() == channels
            &&& planar[c].len() == samples.len() / channels
            &&& 0 <= f < planar[c].len() ==> planar[c][f] == samples[f * channels + c]
        },
        planar.len() == channels && f >= 0 ==> interleaved(planar, (f + 1) as nat).len() == (f + 1)
            * channels,
        planar.len() == channels && f >= 0 ==> interleaved(planar, (f + 1) as nat)[f * channels + c]
            == planar[c][f],
{
    if is_planar(planar, samples, channels) && 0 <= f < planar[c].len() {
        assert(planar[c][f] == samples[f * channels + c]);
    }
    if planar.len() == channels && f >= 0 {
        lemma_frames(planar, (f + 1) as nat);
        assert(interleaved(planar, (f + 1) as nat)[f * planar.len() + c] == planar[c][f]);
    }
}

/// A block is as long as it can be: all but the last have a full length, and only what is left is
/// shorter. No block is empty.
pub proof fn only_the_last_block_is_short(blocks: Seq<Block>, frames: nat, i: int)
    requires
        are_blocks(blocks, frames),
        0 <= i < blocks.len(),
    ensures
        blocks[i].full <==> blocks[i].to - blocks[i].from == 1024,
        i < blocks.len() - 1 ==> blocks[i].full && blocks[i].to == blocks[i + 1].from,
        i == blocks.len() - 1 ==> blocks[i].to == frames,
        0 < blocks[i].to - blocks[i].from <= 1024,
        blocks[0].from == 0,
{
}

/// A decoding begins with the first packet of its track, and has heard nothing yet.
pub proof fn decodings_begin_in_silence(track: u32)
    ensures
        DecodingView::start(track).track == track,
        DecodingView::start(track).stage == DecodeStage::Read,
        !DecodingView::start(track).heard,
        DecodingView::start(track).failure is None,
{
}

} // verus!
