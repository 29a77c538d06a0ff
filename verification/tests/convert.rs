//! Sounds are decoded, resampled and written by the crates that do so, as the library says.
use hound::{SampleFormat, WavReader, WavSpec, WavWriter};
use rubato::{
    Resampler, SincFixedIn, SincInterpolationParameters, SincInterpolationType, WindowFunction,
};
use std::collections::HashMap;
use std::f32::consts::PI;
use std::io::Cursor;
use wav_converter::conversion::Task;
use wav_converter::convert::{
    blocks, convert_file, convert_file_cancellable, convert_in_place, deinterleave, interleave,
    is_audio_extension, is_audio_file, is_cancelled, source_info, target, wav_header, Block,
    Conversion, DecodeStage, Decoding, OutputFormat, Packet, SourceInfo, Target, AUDIO_EXTENSIONS,
    BLOCK_FRAMES,
};
use wav_converter::disk::{Failure, Fault, Outcome};
use wav_converter::naming::read_track_number;
use wav_converter::path::FilePath;

fn fp(text: &str) -> FilePath {
    FilePath {
        root: "/".to_string(),
        parts: text
            .split('/')
            .filter(|part| !part.is_empty())
            .map(|part| part.to_string())
            .collect(),
    }
}

/// Files and their bytes; and the folders.
#[derive(Default)]
struct Files {
    files: HashMap<String, Vec<u8>>,
    folders: Vec<String>,
}

/// The bytes of a sine wave in two channels of 16 bits.
fn make_source(sample_rate: u32, secs: f32) -> Vec<u8> {
    let spec = WavSpec {
        channels: 2,
        sample_rate,
        bits_per_sample: 16,
        sample_format: SampleFormat::Int,
    };
    let mut bytes = Cursor::new(Vec::new());
    let mut w = WavWriter::new(&mut bytes, spec).unwrap();
    let n = (sample_rate as f32 * secs) as u32;
    for i in 0..n {
        let t = i as f32 / sample_rate as f32;
        let l = (2.0 * PI * 440.0 * t).sin();
        let r = (2.0 * PI * 660.0 * t).sin();
        w.write_sample((l * i16::MAX as f32) as i16).unwrap();
        w.write_sample((r * i16::MAX as f32) as i16).unwrap();
    }
    w.finalize().unwrap();
    bytes.into_inner()
}

fn failed(text: &str) -> Outcome<String> {
    Outcome::Failed(Fault::Other, text.to_string())
}

fn decode(bytes: &[u8]) -> Result<(SourceInfo, Vec<f32>), Failure<String>> {
    let refused = |text: &str| Failure {
        cancelled: false,
        text: text.to_string(),
    };
    let source = symphonia::core::io::MediaSourceStream::new(Box::new(Cursor::new(bytes.to_vec())), Default::default());
    let mut format = symphonia::default::get_probe()
        .format(
            &symphonia::core::probe::Hint::new(),
            source,
            &symphonia::core::formats::FormatOptions {
                enable_gapless: true,
                ..Default::default()
            },
            &symphonia::core::meta::MetadataOptions::default(),
        )
        .map_err(|_| refused("지원하지 않는 포맷이거나 손상된 파일"))?
        .format;
    let mut decoding = Decoding::new(format.default_track().map(|track| track.id))
        .map_err(|text| refused(text))?;
    let params = format.default_track().unwrap().codec_params.clone();
    let mut decoder = symphonia::default::get_codecs()
        .make(&params, &symphonia::core::codecs::DecoderOptions::default())
        .unwrap();
    let info = source_info(
        params.channels.map(|channels| channels.count()),
        params.sample_rate,
        params.bits_per_sample,
    )
    .map_err(|text| refused(text))?;
    let mut samples = Vec::new();
    let mut packet = None;
    loop {
        let event = match decoding.stage {
            DecodeStage::Over => break,
            DecodeStage::Read => match format.next_packet() {
                Ok(read) => {
                    let track = read.track_id();
                    packet = Some(read);
                    Packet::Read { track }
                }
                Err(symphonia::core::errors::Error::IoError(error))
                    if error.kind() == std::io::ErrorKind::UnexpectedEof =>
                {
                    Packet::End
                }
                Err(symphonia::core::errors::Error::ResetRequired) => Packet::Reset,
                Err(error) => Packet::Failed(error.to_string()),
            },
            DecodeStage::Decode => match decoder.decode(packet.as_ref().unwrap()) {
                Ok(buffer) => {
                    let mut part =
                        symphonia::core::audio::SampleBuffer::<f32>::new(buffer.capacity() as u64, *buffer.spec());
                    part.copy_interleaved_ref(buffer);
                    samples.extend_from_slice(part.samples());
                    Packet::Decoded {
                        samples: part.samples().len(),
                    }
                }
                Err(symphonia::core::errors::Error::DecodeError(_)) => Packet::Damaged,
                Err(error) => Packet::Failed(error.to_string()),
            },
        };
        decoding.resume(&event);
    }
    match decoding.failure {
        Some(failure) => Err(failure),
        None => Ok((info, samples)),
    }
}

fn resample(samples: &[f32], channels: usize, from_rate: u32, to_rate: u32) -> Vec<f32> {
    let planar = deinterleave(samples, channels);
    let params = SincInterpolationParameters {
        sinc_len: 256,
        f_cutoff: 0.95,
        interpolation: SincInterpolationType::Linear,
        oversampling_factor: 256,
        window: WindowFunction::BlackmanHarris2,
    };
    let mut resampler = SincFixedIn::<f32>::new(
        to_rate as f64 / from_rate as f64,
        2.0,
        params,
        BLOCK_FRAMES,
        channels,
    )
    .unwrap();
    let mut resampled: Vec<Vec<f32>> = vec![Vec::new(); channels];
    for block in blocks(planar[0].len()) {
        let input: Vec<&[f32]> = planar.iter().map(|c| &c[block.from..block.to]).collect();
        let done = if block.full {
            resampler.process(&input, None).unwrap()
        } else {
            resampler.process_partial(Some(&input), None).unwrap()
        };
        for (channel, data) in done.into_iter().enumerate() {
            resampled[channel].extend(data);
        }
    }
    interleave(&resampled)
}

fn write_wav(samples: &[f32], channels: usize, target: Target) -> Vec<u8> {
    let header = wav_header(channels, target.sample_rate, target.bits).unwrap();
    let spec = WavSpec {
        channels: header.channels,
        sample_rate: header.sample_rate,
        bits_per_sample: header.bits_per_sample,
        sample_format: SampleFormat::Int,
    };
    let mut bytes = Cursor::new(Vec::new());
    let mut w = WavWriter::new(&mut bytes, spec).unwrap();
    for s in samples {
        w.write_sample((s.clamp(-1.0, 1.0) * header.peak as f32).round() as i32)
            .unwrap();
    }
    w.finalize().unwrap();
    bytes.into_inner()
}

fn run(mut conversion: Conversion, disk: &mut Files) -> Result<(), Failure<String>> {
    let mut samples = Vec::new();
    loop {
        match conversion.pending() {
            Task::Nothing => return conversion.result(),
            Task::Decode(input) => match disk.files.get(&input.show("/")) {
                None => conversion.resume(&failed("not found")),
                Some(bytes) => match decode(bytes) {
                    Ok((info, decoded)) => {
                        samples = decoded;
                        conversion.resume_decoded(info);
                    }
                    Err(failure) => conversion.resume(&failed(&failure.text)),
                },
            },
            Task::Resample {
                from_rate,
                to_rate,
                channels,
            } => {
                samples = resample(&samples, channels, from_rate, to_rate);
                conversion.resume(&Outcome::Done);
            }
            Task::CreateFolders(folder) => {
                disk.folders.push(folder.show("/"));
                conversion.resume(&Outcome::Done);
            }
            Task::CreateFile(folder) => {
                assert!(disk.folders.contains(&folder.show("/")));
                disk.files
                    .insert(folder.child("partial").show("/"), Vec::new());
                conversion.resume(&Outcome::Created("partial".to_string()));
            }
            Task::Write {
                file,
                channels,
                target,
            } => {
                disk.files
                    .insert(file.show("/"), write_wav(&samples, channels, target));
                conversion.resume(&Outcome::Done);
            }
            Task::Rename { from, to } => {
                let bytes = disk.files.remove(&from.show("/")).unwrap();
                disk.files.insert(to.show("/"), bytes);
                conversion.resume(&Outcome::Done);
            }
            Task::RemoveFile(path) => {
                disk.files.remove(&path.show("/"));
                conversion.resume(&Outcome::Done);
            }
        }
    }
}

fn reader<'a>(disk: &'a Files, path: &str) -> WavReader<Cursor<&'a Vec<u8>>> {
    WavReader::new(Cursor::new(disk.files.get(path).unwrap())).unwrap()
}

#[test]
fn preserve_keeps_rate_and_channels() {
    let mut disk = Files::default();
    disk.files
        .insert("/preserve/in.wav".to_string(), make_source(48_000, 0.5));
    let conversion = convert_file(
        &fp("/preserve/in.wav"),
        &fp("/preserve/out.wav"),
        OutputFormat::Preserve,
        "/",
    );
    run(conversion, &mut disk).unwrap();

    let reader = reader(&disk, "/preserve/out.wav");
    let spec = reader.spec();
    assert_eq!(spec.sample_rate, 48_000, "원본 샘플레이트 유지");
    assert_eq!(spec.channels, 2, "원본 채널 유지");
    assert!(reader.duration() > 0, "샘플이 비어있지 않아야 함");
    assert_eq!(reader.duration(), 24_000);
}

#[test]
fn resample_changes_rate() {
    let mut disk = Files::default();
    disk.files
        .insert("/resample/in.wav".to_string(), make_source(48_000, 0.5));
    let conversion = convert_file(
        &fp("/resample/in.wav"),
        &fp("/resample/out.wav"),
        OutputFormat::Pcm16_44100,
        "/",
    );
    run(conversion, &mut disk).unwrap();

    let reader = reader(&disk, "/resample/out.wav");
    let spec = reader.spec();
    assert_eq!(spec.sample_rate, 44_100, "목표 샘플레이트로 변경");
    assert_eq!(spec.bits_per_sample, 16);
    assert_eq!(spec.channels, 2);
    let frames = reader.duration();
    assert!(
        (20_000..24_000).contains(&frames),
        "리샘플된 길이가 합리적 범위여야 함: {frames}"
    );
}

#[test]
fn output_dir_is_created() {
    let mut disk = Files::default();
    disk.files
        .insert("/mkdir/in.wav".to_string(), make_source(44_100, 0.2));
    let out = "/mkdir/nested/deep/out.wav";
    let conversion = convert_file(
        &fp("/mkdir/in.wav"),
        &fp(out),
        OutputFormat::Pcm24_48000,
        "/",
    );
    run(conversion, &mut disk).unwrap();

    assert_eq!(disk.folders, ["/mkdir/nested/deep"]);
    assert!(
        disk.files.contains_key(out),
        "중첩 출력 폴더가 자동 생성되어야 함"
    );
    let spec = reader(&disk, out).spec();
    assert_eq!(spec.sample_rate, 48_000);
    assert_eq!(spec.bits_per_sample, 24);
}

#[test]
fn in_place_replaces_non_wav_original() {
    let mut disk = Files::default();
    let src = "/inplace_mp3like/song.wav";
    disk.files.insert(src.to_string(), make_source(48_000, 0.2));

    let conversion = convert_in_place(&fp(src), OutputFormat::Pcm16_44100, false, "/");
    run(conversion, &mut disk).unwrap();
    assert!(
        disk.files.contains_key(src),
        "in-place 후에도 .wav 파일은 존재해야 함"
    );
    let spec = reader(&disk, src).spec();
    assert_eq!(
        spec.sample_rate, 44_100,
        "제자리에서 규격이 적용되어야 함"
    );
    assert!(
        !disk.files.contains_key("/inplace_mp3like/song.wavtmp"),
        "임시 파일이 정리되어야 함"
    );
    assert_eq!(disk.files.len(), 1);
}

#[test]
fn a_file_without_sound_is_refused() {
    let mut disk = Files::default();
    disk.files
        .insert("/in.wav".to_string(), make_source(48_000, 0.0));
    let conversion = convert_file(
        &fp("/in.wav"),
        &fp("/out.wav"),
        OutputFormat::Preserve,
        "/",
    );
    let failure = run(conversion, &mut disk).unwrap_err();
    assert_eq!(
        failure.text,
        "디코딩 실패: /in.wav: 디코딩된 오디오 샘플이 없음"
    );
    assert_eq!(disk.files.len(), 1);
}

/// The values of the tags for track numbers.
fn track_values(bytes: Vec<u8>) -> Vec<String> {
    let source = symphonia::core::io::MediaSourceStream::new(Box::new(Cursor::new(bytes)), Default::default());
    let mut probed = symphonia::default::get_probe()
        .format(
            &symphonia::core::probe::Hint::new(),
            source,
            &symphonia::core::formats::FormatOptions::default(),
            &symphonia::core::meta::MetadataOptions::default(),
        )
        .unwrap();
    let mut tags: Vec<symphonia::core::meta::Tag> = Vec::new();
    if let Some(metadata) = probed.metadata.get() {
        tags.extend(metadata.current().unwrap().tags().iter().cloned());
    }
    if let Some(revision) = probed.format.metadata().current() {
        tags.extend(revision.tags().iter().cloned());
    }
    tags.into_iter()
        .filter(|tag| tag.std_key == Some(symphonia::core::meta::StandardTagKey::TrackNumber))
        .map(|tag| tag.value.to_string())
        .collect()
}

#[test]
fn reads_id3_track_number_without_decoding_audio() {
    let spec = WavSpec {
        channels: 1,
        sample_rate: 44100,
        bits_per_sample: 16,
        sample_format: SampleFormat::Int,
    };
    let mut bytes = Cursor::new(Vec::new());
    let mut writer = WavWriter::new(&mut bytes, spec).unwrap();
    writer.write_sample(1i16).unwrap();
    writer.finalize().unwrap();
    let audio = bytes.into_inner();
    assert_eq!(read_track_number(&track_values(audio.clone())), None);
    // ID3v2.3 TRCK frame: text encoding 0, value "03/28".
    let mut tagged =
        b"ID3\x03\x00\x00\x00\x00\x00\x10TRCK\x00\x00\x00\x06\x00\x00\x0003/28".to_vec();
    tagged.extend(audio);
    assert_eq!(read_track_number(&track_values(tagged)), Some(3));
}

#[test]
fn formats_have_labels_rates_and_bits() {
    let all: Vec<(&str, Option<u32>, Option<u16>)> = OutputFormat::ALL
        .iter()
        .map(|f| (f.label(), f.target_rate(), f.target_bits()))
        .collect();
    assert_eq!(
        all,
        [
            ("원본 유지 (무손실)", None, None),
            ("16bit · 44.1kHz (CD 표준)", Some(44_100), Some(16)),
            ("16bit · 48kHz", Some(48_000), Some(16)),
            ("24bit · 48kHz", Some(48_000), Some(24)),
            ("24bit · 96kHz (하이레졸루션)", Some(96_000), Some(24)),
        ]
    );
}

#[test]
fn targets_follow_formats_and_sources() {
    let source = |bits| SourceInfo {
        sample_rate: 22_050,
        channels: 1,
        bits,
    };
    for (bits, kept) in [(None, 16), (Some(8), 16), (Some(16), 16), (Some(20), 24), (Some(32), 24)]
    {
        let kept = Target {
            sample_rate: 22_050,
            bits: kept,
        };
        assert_eq!(target(OutputFormat::Preserve, &source(bits)), kept);
    }
    assert_eq!(
        target(OutputFormat::Pcm24_96000, &source(Some(16))),
        Target {
            sample_rate: 96_000,
            bits: 24
        }
    );
}

#[test]
fn sources_without_channels_or_rate_are_refused() {
    assert_eq!(
        source_info(None, None, None).unwrap_err(),
        "채널 정보 없음"
    );
    assert_eq!(
        source_info(Some(2), None, None).unwrap_err(),
        "샘플레이트 정보 없음"
    );
    let info = source_info(Some(2), Some(8_000), Some(12)).unwrap();
    assert_eq!(
        (info.channels, info.sample_rate, info.bits),
        (2, 8_000, Some(12))
    );
}

#[test]
fn headers_hold_the_peak_of_their_depth() {
    assert_eq!(wav_header(2, 44_100, 16).unwrap().peak, 32_767);
    assert_eq!(wav_header(2, 44_100, 24).unwrap().peak, 8_388_607);
    assert_eq!(
        wav_header(2, 44_100, 32).unwrap_err(),
        "지원하지 않는 비트심도: 32"
    );
}

#[test]
fn channels_are_parted_and_put_together() {
    let parted = deinterleave(&[1, 10, 2, 20, 3], 2);
    assert_eq!(parted, [vec![1, 2], vec![10, 20]]);
    assert_eq!(interleave(&parted), [1, 10, 2, 20]);
}

#[test]
fn channels_do_not_mix() {
    let left = deinterleave(&[1, 10, 2, 20], 2);
    let right = deinterleave(&[1, -7, 2, -8], 2);
    assert_eq!(left[0], right[0]);
    assert_ne!(left[1], right[1]);
    let longer = deinterleave(&[1, 10, 2, 20, 99], 2);
    assert_eq!(longer, left);
}

#[test]
fn blocks_follow_each_other() {
    let block = |from, to, full| Block { from, to, full };
    assert_eq!(blocks(0), []);
    assert_eq!(blocks(1024), [block(0, 1024, true)]);
    assert_eq!(
        blocks(2049),
        [
            block(0, 1024, true),
            block(1024, 2048, true),
            block(2048, 2049, false)
        ]
    );
}

#[test]
fn audio_files_are_known_by_their_extension() {
    assert_eq!(AUDIO_EXTENSIONS.len(), 18);
    assert!(is_audio_extension("MP3"));
    assert!(!is_audio_extension("jpg"));
    assert!(is_audio_file(&fp("/a/b.FlaC")));
    assert!(!is_audio_file(&fp("/a/b")));
    assert!(!is_audio_file(&fp("/a/.mp3")));
    assert!(!is_audio_file(&fp("/")));
    assert!(!is_audio_file(&fp("/a.mp3/..")));
}

#[test]
fn packets_of_other_tracks_are_passed_over() {
    assert_eq!(
        Decoding::new(None).unwrap_err(),
        "오디오 트랙을 찾을 수 없음"
    );
    let mut decoding = Decoding::new(Some(7)).unwrap();
    decoding.resume(&Packet::Read { track: 8 });
    assert_eq!(decoding.stage, DecodeStage::Read);
    decoding.resume(&Packet::Read { track: 7 });
    assert_eq!(decoding.stage, DecodeStage::Decode);
    decoding.resume(&Packet::Damaged);
    assert_eq!(decoding.stage, DecodeStage::Read);
    decoding.resume(&Packet::Read { track: 7 });
    decoding.resume(&Packet::Decoded { samples: 2 });
    decoding.resume(&Packet::Reset);
    assert_eq!(decoding.stage, DecodeStage::Over);
    assert!(decoding.failure.is_none());

    for (reading, text) in [(true, "패킷 읽기 실패"), (false, "디코딩 실패")] {
        let mut decoding = Decoding::new(Some(7)).unwrap();
        if !reading {
            decoding.resume(&Packet::Read { track: 7 });
        }
        decoding.resume(&Packet::Failed("broken".to_string()));
        let failure = decoding.failure.unwrap();
        assert!(failure.text.starts_with(text), "{}", failure.text);
        assert!(failure.text.ends_with("broken"));
    }

    let mut decoding = Decoding::new(Some(7)).unwrap();
    decoding.resume(&Packet::Cancelled);
    assert!(is_cancelled(&decoding.failure.unwrap()));
}

#[test]
fn a_cancelled_conversion_says_so() {
    let conversion = convert_file_cancellable(
        &fp("/a.mp3"),
        &fp("/b.wav"),
        OutputFormat::Preserve,
        "/",
        true,
    );
    assert!(matches!(conversion.pending(), Task::Nothing));
    assert!(is_cancelled(&conversion.result().unwrap_err()));
}
