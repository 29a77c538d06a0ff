//! The window and the control of a job.
use wav_converter::control::{JobControl, Phase};
use wav_converter::path::FilePath;
use wav_converter::window::{App, Job, Zone, MAX_UI_LOGS};
use wav_converter::worker::Msg;

fn job(total: usize) -> Option<Job> {
    Some(Job {
        total,
        done: 0,
        current: String::new(),
        order_error: None,
    })
}

fn folder(names: &[&str]) -> FilePath {
    FilePath {
        root: "/".to_string(),
        parts: names.iter().map(|name| name.to_string()).collect(),
    }
}

#[test]
fn cancellation_and_commit_are_mutually_exclusive() {
    let mut cancel_first = JobControl::default();
    assert!(cancel_first.request_cancel());
    assert!(!cancel_first.begin_commit());
    let mut commit_first = JobControl::default();
    assert!(commit_first.begin_commit());
    assert!(!commit_first.request_cancel());
    assert!(!commit_first.cancel);
}

#[test]
fn the_phase_of_a_job_is_known() {
    let mut control = JobControl::default();
    assert!(control.can_cancel());
    assert!(!control.cancelled());
    assert!(control.request_cancel());
    assert!(!control.request_cancel());
    assert!(control.cancelled());
    assert!(control.cancel);
    assert!(!control.can_cancel());
}

#[test]
fn filename_warning_survives_completion_and_renders() {
    let mut app = App {
        job: job(1),
        ..Default::default()
    };
    assert!(app
        .accept(Msg::NameWarning("01 日本語.wav".to_owned()))
        .is_none());
    app.accept(Msg::Finished { ok: 1, failed: 0 });
    assert!(app.job.is_none());
    assert_eq!(app.filename_warning.as_deref(), Some("01 日本語.wav"));
    for _ in 0..3 {
        app.settle_target();
    }
    assert!(app.filename_warning.is_some());
}

#[test]
fn many_results_keep_ui_log_bounded() {
    let mut app = App {
        job: job(2000),
        ..Default::default()
    };
    for i in 0..2000 {
        app.accept(Msg::Log(format!("file {i}")));
    }
    app.accept(Msg::Finished {
        ok: 2000,
        failed: 0,
    });
    assert_eq!(app.log.len(), MAX_UI_LOGS);
    assert_eq!(app.log.back().map(|line| line.as_str()), Some("── 작업 완료: 성공 2000, 실패 0 ──"));
    assert!(app.job.is_none());
    assert!(app.summary.unwrap().contains("2000"));
}

#[test]
fn disconnected_worker_reports_interruption() {
    let mut app = App {
        job: job(1),
        ..Default::default()
    };
    app.interrupted();
    assert!(app.job.is_none());
    assert!(app.summary.unwrap().contains("중단"));
}

#[test]
fn progress_is_shown() {
    let mut app = App {
        job: job(0),
        ..Default::default()
    };
    app.accept(Msg::Total(12));
    app.accept(Msg::Progress {
        done: 3,
        file: "a.mp3".to_string(),
    });
    assert_eq!(app.progress_text().as_deref(), Some("3 / 12"));
    assert_eq!(
        app.status_text(Phase::Cancellable).as_deref(),
        Some("변환 중: a.mp3")
    );
    assert_eq!(
        app.status_text(Phase::Committing).as_deref(),
        Some("완료 처리 중…")
    );
    assert!(app
        .status_text(Phase::Cancelled)
        .unwrap()
        .starts_with("취소 중…"));
    assert!(App::default().progress_text().is_none());
}

#[test]
fn an_order_error_spoils_a_success() {
    let mut app = App {
        job: job(1),
        ..Default::default()
    };
    app.accept(Msg::OrderError("순서 오류".to_string()));
    let notice = app.accept(Msg::Finished { ok: 1, failed: 0 }).unwrap();
    assert!(notice.contains("순서 정리에 실패"));
    assert!(!app.summary.unwrap().starts_with('✅'));
}

#[test]
fn a_cancelled_job_is_summed_up() {
    let mut app = App {
        job: job(1),
        ..Default::default()
    };
    assert!(app.accept(Msg::Cancelled { cleanup_error: None }).is_none());
    assert!(app.job.is_none());
    assert!(app.summary.as_deref().unwrap().starts_with("취소 완료"));
    app.job = job(1);
    app.accept(Msg::Cancelled {
        cleanup_error: Some("복구 폴더 /x".to_string()),
    });
    assert!(!app.summary.as_deref().unwrap().starts_with("취소 완료"));
}

#[test]
fn closing_waits_for_the_job() {
    let mut app = App::default();
    assert!(!app.request_close());
    app.job = job(1);
    assert!(app.request_close());
    assert!(!app.closes());
    app.accept(Msg::Cancelled { cleanup_error: None });
    assert!(app.closes());
}

#[test]
fn dropped_folders_go_to_the_box_under_the_pointer() {
    let mut app = App::default();
    app.handle_dropped_files(Some(folder(&["in"])), true, false, true);
    app.handle_dropped_files(Some(folder(&["out"])), true, true, false);
    assert_eq!(app.input_dir.as_ref().unwrap().show("/"), "/in");
    assert_eq!(app.output_dir.as_ref().unwrap().show("/"), "/out");
    assert!(app.can_start());
    app.drop_target = Zone::Output;
    app.handle_dropped_files(Some(folder(&["other"])), true, false, false);
    assert_eq!(app.output_dir.as_ref().unwrap().show("/"), "/other");
    app.handle_dropped_files(None, false, true, false);
    assert_eq!(app.output_dir.as_ref().unwrap().show("/"), "/other");
    app.same_as_input = true;
    app.settle_target();
    assert_eq!(app.drop_target, Zone::Input);
    assert!(!app.output_enabled());
    assert!(app.output_hint().contains("원본 대체"));
}

#[test]
fn a_job_begins_with_what_was_chosen() {
    let mut app = App {
        input_dir: Some(folder(&["in"])),
        output_dir: Some(folder(&[])),
        remove_artist: true,
        disable_track_prefix: true,
        summary: Some("old".to_string()),
        filename_warning: Some("old".to_string()),
        ..Default::default()
    };
    assert_eq!(
        app.saving_place("/").as_deref(),
        Some("실제 저장 위치: /WAV")
    );
    let settings = app.start_job("/", "record.log");
    assert_eq!(settings.input.show("/"), "/in");
    assert_eq!(settings.output.show("/"), "/WAV");
    assert_eq!(settings.selected.unwrap().show("/"), "/");
    assert!(settings.remove_artist && settings.arrange);
    assert!(!settings.use_track_number && !settings.in_place);
    assert!(app.job.is_some());
    assert!(!app.can_start());
    assert!(app.summary.is_none() && app.filename_warning.is_none());
}
