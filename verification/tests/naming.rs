//! Names, numbers and texts.
use std::cmp::Ordering;
use wav_converter::naming::{
    filename_warning, has_track_prefix, natural_cmp, numbered_wav_path, read_track_number, wav_path,
};
use wav_converter::notification::{completion_message, notice_failure, show_completion};
use wav_converter::output_order::effective_output_dir;
use wav_converter::path::{absolute, same_path, Component, FilePath, RawPath};
use wav_converter::plan::{outside_output_warning, sort_plans, Neighbour, Plan};
use wav_converter::text::{decimal_text, is_whitespace};

fn fp(text: &str) -> FilePath {
    let root = if text.starts_with('/') { "/" } else { "" };
    FilePath {
        root: root.to_string(),
        parts: text
            .split('/')
            .filter(|part| !part.is_empty())
            .map(|part| part.to_string())
            .collect(),
    }
}

fn show(path: &FilePath) -> String {
    path.show("/")
}

#[test]
fn removes_artist_and_preserves_title_hyphens() {
    assert_eq!(
        show(&wav_path(&fp("CD 1/01 ミツキヨ - Song - Remix.mp3"), true)),
        "CD 1/01 Song - Remix.wav"
    );
    assert_eq!(
        show(&wav_path(&fp("02. KARUT - Funky Road.flac"), true)),
        "02 Funky Road.wav"
    );
}

#[test]
fn leaves_disabled_or_unrecognized_names_unchanged() {
    for (name, expected) in [
        ("01 Song.mp3", "01 Song.wav"),
        ("Artist - Song.mp3", "Artist - Song.wav"),
        ("01 - Song.mp3", "01 - Song.wav"),
        ("01 Artist - .mp3", "01 Artist - .wav"),
    ] {
        assert_eq!(show(&wav_path(&fp(name), true)), expected);
    }
    assert_eq!(
        show(&wav_path(&fp("01 Artist - Song.mp3"), false)),
        "01 Artist - Song.wav"
    );
}

#[test]
fn sorts_disc_and_track_numbers() {
    let mut names = ["CD 10/1", "CD 2/10", "CD 2/2", "CD 1/14", "CD 1/01"];
    names.sort_by(|a, b| natural_cmp(a, b));
    assert_eq!(
        names,
        ["CD 1/01", "CD 1/14", "CD 2/2", "CD 2/10", "CD 10/1"]
    );
}

#[test]
fn natural_order_of_names() {
    assert_eq!(natural_cmp("disc 2", "DISC 10"), Ordering::Less);
    assert_eq!(natural_cmp("Ä", "ä"), Ordering::Equal);
    assert_eq!(natural_cmp("a", "b"), Ordering::Less);
    assert_eq!(natural_cmp("2", "2a"), Ordering::Less);
    assert_eq!(
        natural_cmp(
            "99999999999999999999999999999999999999999",
            "100000000000000000000000000000000000000000"
        ),
        Ordering::Less
    );
    assert_ne!(natural_cmp("1", "01"), Ordering::Equal);
    assert_eq!(natural_cmp("", ""), Ordering::Equal);
}

#[test]
fn non_ascii_warning_checks_result_paths() {
    assert!(filename_warning(&["Disc 1/01 Song - Remix!.wav".to_string()]).is_none());
    for path in [
        "Disc 1/01 노래.wav",
        "日本語/01 Song.wav",
        "Disc 2/01 中文.wav",
    ] {
        assert!(filename_warning(&[path.to_string()])
            .unwrap()
            .contains(path));
    }
    let cleaned = wav_path(&fp("01 ミツキヨ - Song.mp3"), true);
    assert!(filename_warning(&[show(&cleaned)]).is_none());
}

#[test]
fn the_warning_shows_ten_names_once_and_counts_all() {
    let mut names: Vec<String> = (0..12).map(|n| format!("{n:02} 곡")).collect();
    names.push("00 곡".to_string());
    names.push("plain".to_string());
    let warning = filename_warning(&names).unwrap();
    assert!(warning.starts_with("변환 결과 12개에 "));
    assert_eq!(warning.matches("00 곡").count(), 1);
    assert!(warning.contains("09 곡"));
    assert!(!warning.contains("10 곡"));
    assert!(warning.contains("\n외 2개 (전체 목록은 로그 참고)"));
    assert!(filename_warning(&[]).is_none());
}

#[test]
fn numbers_go_in_front_of_names() {
    assert_eq!(
        show(&numbered_wav_path(&fp("CD 1/Song.mp3"), false, Some(3))),
        "CD 1/3. Song.wav"
    );
    assert_eq!(
        show(&numbered_wav_path(&fp("Song.tar.gz"), false, None)),
        "Song.tar.wav"
    );
    assert!(has_track_prefix(&fp("CD 1/01 Song.mp3")));
    assert!(!has_track_prefix(&fp("1 CD/Song.mp3")));
    assert_eq!(show(&wav_path(&fp(".hidden"), false)), ".hidden.wav");
}

#[test]
fn track_numbers_are_read_from_tags() {
    let read = |values: &[&str]| {
        read_track_number(&values.iter().map(|value| value.to_string()).collect())
    };
    assert_eq!(read(&["03/28"]), Some(3));
    assert_eq!(read(&[" 7 "]), Some(7));
    assert_eq!(read(&["A1", "12"]), Some(12));
    assert_eq!(read(&["4294967295"]), Some(u32::MAX));
    assert_eq!(read(&["4294967296"]), None);
    assert_eq!(read(&["99999999999999999999"]), None);
    assert_eq!(read(&["/28"]), None);
    assert_eq!(read(&[]), None);
}

#[test]
fn completion_includes_counts_and_warnings() {
    assert_eq!(
        completion_message(26, 0, false, false),
        "변환 성공 26개 · 실패 0개"
    );
    let warning = completion_message(24, 2, true, true);
    assert!(warning.contains("실패 2개"));
    assert!(warning.contains("순서 정리에 실패"));
    assert!(warning.contains("비영문"));
}

#[test]
fn notices_are_for_windows_desktops() {
    assert!(show_completion("done", false).is_none());
    let toast = show_completion("done", true).unwrap();
    assert_eq!(toast.app_id, "WavConverter.Desktop");
    assert_eq!(
        toast.registry_key,
        r"Software\Classes\AppUserModelId\WavConverter.Desktop"
    );
    assert_eq!(toast.display_name, "WAV 일괄 변환기");
    assert_eq!(toast.title, "WAV 변환 작업 완료");
    assert_eq!(toast.text, "done");
    assert_eq!(notice_failure("x"), "Windows 알림 전송 실패: x");
}

#[test]
fn drive_root_uses_dedicated_output_folder() {
    for root in ["/", "E:\\"] {
        let root = FilePath {
            root: root.to_string(),
            parts: Vec::new(),
        };
        assert!(effective_output_dir(&root, true).equals(&root.child("WAV")));
        assert!(effective_output_dir(&root, false).equals(&root));
        let album = root.child("Album");
        assert!(effective_output_dir(&album, true).equals(&album));
    }
}

#[test]
fn warning_distinguishes_existing_root_music_from_new_output() {
    let selected = fp("/selected");
    let effective = selected.child("WAV");
    assert!(outside_output_warning(&selected, &effective, &Vec::new(), "/").is_none());
    let entries = vec![
        Neighbour {
            name: "07. Haruka.wav".to_string(),
            is_file: true,
        },
        Neighbour {
            name: "folder.wav".to_string(),
            is_file: false,
        },
        Neighbour {
            name: "notes.txt".to_string(),
            is_file: true,
        },
    ];
    let warning = outside_output_warning(&selected, &effective, &entries, "/").unwrap();
    assert!(warning.contains("기존 음원 1개"));
    assert!(warning.contains("/selected/WAV"));
    assert!(warning.contains("07. Haruka.wav"));
    assert!(outside_output_warning(&selected, &selected, &entries, "/").is_none());
}

#[test]
fn paths_are_resolved_step_by_step() {
    let path = RawPath {
        root: "/".to_string(),
        steps: vec![
            Component::Name("a".to_string()),
            Component::Current,
            Component::Name("b".to_string()),
            Component::Parent,
            Component::Name("c".to_string()),
        ],
    };
    assert_eq!(show(&absolute(&path).unwrap()), "/a/c");
    let above = RawPath {
        root: "/".to_string(),
        steps: vec![Component::Parent],
    };
    assert!(absolute(&above).is_none());
    assert!(same_path(&fp("/A/Straße"), &fp("/a/STRAßE"), true));
    assert!(!same_path(&fp("/A"), &fp("/a"), false));
}

#[test]
fn plans_follow_the_natural_order_of_results() {
    let plan = |file: &str, result: &str| Plan {
        file: fp(file),
        result: fp(result),
    };
    let sorted = sort_plans(
        vec![
            plan("c", "CD 10/1.wav"),
            plan("b", "CD 2/B.wav"),
            plan("a", "CD 2/b.wav"),
            plan("d", "CD 1/9.wav"),
        ],
        "/",
    );
    let files: Vec<String> = sorted.iter().map(|plan| show(&plan.file)).collect();
    assert_eq!(files, ["d", "b", "a", "c"]);
}

#[test]
fn whitespace_is_what_the_standard_library_takes_for_it() {
    for code in 0..=0x10ffff_u32 {
        if let Some(c) = char::from_u32(code) {
            assert_eq!(is_whitespace(c), c.is_whitespace(), "{code:x}");
        }
    }
}

#[test]
fn numbers_are_written_in_decimal() {
    assert_eq!(decimal_text(0), "0");
    assert_eq!(decimal_text(10_203), "10203");
    assert_eq!(decimal_text(u128::MAX), u128::MAX.to_string());
}

#[test]
fn results_keep_their_names_when_converted_again() {
    let once = wav_path(&fp("CD 1/01 Song.flac"), false);
    assert!(wav_path(&once, false).equals(&once));
}

#[test]
fn the_warning_depends_on_which_names_there_are() {
    let names = ["나", "가", "나", "plain"].map(|name| name.to_string());
    let others = ["가", "나"].map(|name| name.to_string());
    assert_eq!(filename_warning(&names), filename_warning(&others));
}

#[test]
fn numbers_go_by_their_value_behind_a_common_beginning() {
    assert_eq!(natural_cmp("Track 007", "Track 8"), Ordering::Less);
    assert_eq!(natural_cmp("Track 8", "Track 007"), Ordering::Greater);
    assert_eq!(natural_cmp("Track 8", "Track 8b"), Ordering::Less);
    assert_eq!(natural_cmp("Track 2 b", "Track 10 a"), Ordering::Less);
    assert_eq!(natural_cmp("Track 10 a", "Track 2 b"), Ordering::Greater);
    assert_eq!(natural_cmp("cd 2", "CD 10"), Ordering::Less);
    assert_eq!(natural_cmp("CD 2.Ä", "cd 10 ä"), Ordering::Less);
}

#[test]
fn paths_without_a_name_are_left_as_they_are() {
    for path in ["..", ".", "/", "CD 1/..", "/.."] {
        for remove_artist in [false, true] {
            assert!(wav_path(&fp(path), remove_artist).equals(&fp(path)));
            assert!(numbered_wav_path(&fp(path), remove_artist, Some(3)).equals(&fp(path)));
        }
        assert!(!has_track_prefix(&fp(path)));
    }
    assert_eq!(show(&wav_path(&fp("..."), false)), "...wav");
}
