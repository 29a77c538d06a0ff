//! Whole jobs on a disk in memory, which lists the entries of a folder in the order in which they
//! came there.
use std::collections::HashSet;
use wav_converter::control::JobControl;
use wav_converter::conversion::Task;
use wav_converter::convert::{
    convert_file, convert_file_cancellable, convert_in_place, convert_in_place_to, is_cancelled,
    Conversion, OutputFormat, SourceInfo,
};
use wav_converter::disk::{Action, Failure, Fault, Kind, Outcome};
use wav_converter::naming::{natural_cmp, wav_path};
use wav_converter::output_order::{arrange_output, OrderReport};
use wav_converter::path::{Component, FilePath, RawPath};
use wav_converter::plan::Neighbour;
use wav_converter::sorting::DirEntry;
use wav_converter::transaction::{Output, OutputTransaction};
use wav_converter::window::App;
use wav_converter::worker::{Msg, WorkAction, WorkEvent, Worker};

const SEP: &str = "/";

fn fp(text: &str) -> FilePath {
    let parts = text
        .split('/')
        .filter(|part| !part.is_empty())
        .map(|part| part.to_string())
        .collect();
    let root = if text.starts_with('/') { "/" } else { "" };
    FilePath {
        root: root.to_string(),
        parts,
    }
}

fn raw(path: &FilePath) -> RawPath {
    RawPath {
        root: path.root.clone(),
        steps: path
            .parts
            .iter()
            .map(|part| Component::Name(part.clone()))
            .collect(),
    }
}

fn show(path: &FilePath) -> String {
    path.show(SEP)
}

#[derive(Clone, Debug, PartialEq)]
enum Item {
    File(Vec<u8>),
    Folder,
    Link,
}

/// A disk: its entries in the order in which they came.
#[derive(Clone, Debug, Default)]
struct Disk {
    items: Vec<(Vec<String>, Item)>,
    locked: HashSet<String>,
    serial: usize,
    /// Entries are listed the other way round.
    backwards: bool,
}

impl Disk {
    fn get(&self, path: &FilePath) -> Option<&Item> {
        if path.parts.is_empty() {
            return Some(&Item::Folder);
        }
        self.items
            .iter()
            .find(|(parts, _)| *parts == path.parts)
            .map(|(_, item)| item)
    }

    fn put(&mut self, path: &FilePath, item: Item) {
        match self
            .items
            .iter()
            .position(|(parts, _)| *parts == path.parts)
        {
            Some(i) => self.items[i].1 = item,
            None => self.items.push((path.parts.clone(), item)),
        }
    }

    fn folder(&mut self, path: &str) {
        let path = fp(path);
        for n in 1..=path.parts.len() {
            let above = path.prefix(n);
            if self.get(&above).is_none() {
                self.put(&above, Item::Folder);
            }
        }
    }

    fn write(&mut self, path: &str, bytes: &[u8]) {
        self.put(&fp(path), Item::File(bytes.to_vec()));
    }

    fn read(&self, path: &str) -> Vec<u8> {
        match self.get(&fp(path)) {
            Some(Item::File(bytes)) => bytes.clone(),
            other => panic!("not a file: {path} {other:?}"),
        }
    }

    fn has(&self, path: &str) -> bool {
        self.get(&fp(path)).is_some()
    }

    fn names(&self, path: &FilePath) -> Vec<String> {
        let depth = path.parts.len();
        let mut names: Vec<String> = self
            .items
            .iter()
            .filter(|(parts, _)| parts.len() == depth + 1 && parts[..depth] == path.parts[..])
            .map(|(parts, _)| parts[depth].clone())
            .collect();
        if self.backwards {
            names.reverse();
        }
        names
    }

    fn count(&self, path: &str) -> usize {
        self.names(&fp(path)).len()
    }

    fn lock(&mut self, path: &str) {
        self.locked.insert(path.to_string());
    }

    fn is_locked(&self, path: &FilePath) -> bool {
        self.locked.contains(&show(path))
    }

    fn rename(&mut self, from: &FilePath, to: &FilePath) -> Outcome<String> {
        if self.is_locked(from) || self.is_locked(to) {
            return Outcome::Failed(Fault::Other, "locked".to_string());
        }
        if self.get(from).is_none() {
            return Outcome::Failed(Fault::NotFound, "not found".to_string());
        }
        if from.parts == to.parts {
            return Outcome::Done;
        }
        self.items.retain(|(parts, _)| *parts != to.parts);
        let depth = from.parts.len();
        let (moving, rest): (Vec<_>, Vec<_>) = self
            .items
            .drain(..)
            .partition(|(parts, _)| parts.len() >= depth && parts[..depth] == from.parts[..]);
        self.items = rest;
        for (parts, item) in moving {
            let mut moved = to.parts.clone();
            moved.extend_from_slice(&parts[depth..]);
            self.items.push((moved, item));
        }
        Outcome::Done
    }

    fn remove_file(&mut self, path: &FilePath) -> Outcome<String> {
        if self.is_locked(path) {
            return Outcome::Failed(Fault::Other, "locked".to_string());
        }
        match self.get(path) {
            None => Outcome::Failed(Fault::NotFound, "not found".to_string()),
            Some(Item::Folder) => Outcome::Failed(Fault::Other, "is a folder".to_string()),
            Some(_) => {
                self.items.retain(|(parts, _)| *parts != path.parts);
                Outcome::Done
            }
        }
    }

    fn create_unique(&mut self, parent: &FilePath, prefix: &str) -> Outcome<String> {
        self.serial += 1;
        let name = format!("{prefix}{}", self.serial);
        self.put(&parent.child(&name), Item::Folder);
        Outcome::Created(name)
    }

    /// Performs everything but a conversion and a listing.
    fn perform(&mut self, action: &Action<FilePath, String>) -> Outcome<String> {
        match action {
            Action::Continue => Outcome::Done,
            Action::Probe(p) => Outcome::Exists(self.get(p).is_some()),
            Action::Inspect(p) => match self.get(p) {
                Some(Item::File(_)) => Outcome::Found(Kind::File),
                Some(Item::Folder) => Outcome::Found(Kind::Folder),
                Some(Item::Link) => Outcome::Found(Kind::Other),
                None => Outcome::Failed(Fault::NotFound, "not found".to_string()),
            },
            Action::CreateFolder(p) => {
                if self.get(p).is_some() {
                    Outcome::Failed(Fault::Other, "exists".to_string())
                } else {
                    self.put(p, Item::Folder);
                    Outcome::Done
                }
            }
            Action::CreateUnique { parent, prefix } => self.create_unique(parent, prefix),
            Action::RemoveFile(p) => self.remove_file(p),
            Action::RemoveFolder(p) => match self.get(p) {
                Some(Item::Folder) => {
                    if self.names(p).is_empty() {
                        self.items.retain(|(parts, _)| *parts != p.parts);
                        Outcome::Done
                    } else {
                        Outcome::Failed(Fault::NotEmpty, "not empty".to_string())
                    }
                }
                _ => Outcome::Failed(Fault::NotFound, "not found".to_string()),
            },
            Action::Rename { from, to } => self.rename(from, to),
            Action::AppendLine { file, line } => {
                let mut bytes = match self.get(file) {
                    Some(Item::File(bytes)) => bytes.clone(),
                    _ => Vec::new(),
                };
                bytes.extend_from_slice(line.as_bytes());
                bytes.push(b'\n');
                self.put(file, Item::File(bytes));
                Outcome::Done
            }
            Action::Convert { .. } | Action::List(_) => unreachable!(),
        }
    }
}

/// The bytes of a sound of a given rate, a thousand frames long.
fn sound(rate: u32) -> Vec<u8> {
    format!("audio {rate} 1000").into_bytes()
}

/// The rate of a sound, if these are the bytes of one.
fn rate_of(bytes: &[u8]) -> Option<u32> {
    let text = String::from_utf8(bytes.to_vec()).ok()?;
    text.strip_prefix("audio ")?.split(' ').next()?.parse().ok()
}

/// How many frames a sound has.
fn frames_of(bytes: &[u8]) -> Option<u32> {
    let text = String::from_utf8(bytes.to_vec()).ok()?;
    text.strip_prefix("audio ")?.split(' ').nth(1)?.parse().ok()
}

/// Carries a conversion out. `stop` cancels it at the step of that number.
fn finish_conversion(
    mut conversion: Conversion,
    disk: &mut Disk,
    stop: Option<usize>,
) -> Result<(), Failure<String>> {
    let mut step = 0;
    loop {
        let stopped = stop == Some(step);
        step += 1;
        match conversion.pending() {
            Task::Nothing => return conversion.result(),
            Task::Decode(input) => {
                let found = match disk.get(&input) {
                    Some(Item::File(bytes)) => rate_of(bytes),
                    _ => None,
                };
                match found {
                    _ if stopped => conversion.resume(&Outcome::Cancelled),
                    Some(sample_rate) => conversion.resume_decoded(SourceInfo {
                        sample_rate,
                        channels: 2,
                        bits: Some(16),
                    }),
                    None => conversion.resume(&Outcome::Failed(
                        Fault::Other,
                        "지원하지 않는 포맷이거나 손상된 파일".to_string(),
                    )),
                }
            }
            Task::Resample { .. } => {
                let outcome = if stopped {
                    Outcome::Cancelled
                } else {
                    Outcome::Done
                };
                conversion.resume(&outcome);
            }
            Task::CreateFolders(folder) => {
                disk.folder(&show(&folder));
                conversion.resume(&Outcome::Done);
            }
            Task::CreateFile(folder) => {
                let outcome = disk.create_unique(&folder, ".partial-");
                if let Outcome::Created(name) = &outcome {
                    disk.put(&folder.child(name), Item::File(Vec::new()));
                }
                conversion.resume(&outcome);
            }
            Task::Write { file, target, .. } => {
                disk.put(&file, Item::File(sound(target.sample_rate)));
                let outcome = if stopped {
                    Outcome::Cancelled
                } else {
                    Outcome::Done
                };
                conversion.resume(&outcome);
            }
            Task::Rename { from, to } => {
                let outcome = disk.rename(&from, &to);
                conversion.resume(&outcome);
            }
            Task::RemoveFile(path) => {
                let outcome = disk.remove_file(&path);
                conversion.resume(&outcome);
            }
        }
    }
}

fn open(disk: &mut Disk, root: &str) -> OutputTransaction {
    open_at(disk, &fp(root)).unwrap()
}

fn open_at(disk: &mut Disk, root: &FilePath) -> Result<OutputTransaction, String> {
    let mut opening = OutputTransaction::new(&raw(root), false, SEP)?;
    while let Some(action) = opening.pending() {
        let outcome = disk.perform(&action);
        opening.resume(&outcome);
    }
    opening.finish()
}

/// Carries the operation under way out.
fn drive(
    transaction: &mut OutputTransaction,
    disk: &mut Disk,
    cancel: bool,
) -> Result<(), Failure<String>> {
    while let Some(action) = transaction.pending() {
        let outcome = match &action {
            Action::Convert {
                source,
                staged,
                format,
            } => {
                let conversion = convert_file_cancellable(source, staged, *format, SEP, cancel);
                match finish_conversion(conversion, disk, None) {
                    Ok(()) => Outcome::Converted { cancelled: cancel },
                    Err(failure) if is_cancelled(&failure) => Outcome::Cancelled,
                    Err(failure) => Outcome::Failed(Fault::Other, failure.text),
                }
            }
            other => disk.perform(other),
        };
        transaction.resume(&outcome);
    }
    transaction.result()
}

fn convert(
    transaction: &mut OutputTransaction,
    disk: &mut Disk,
    input: &str,
    output: &str,
    format: OutputFormat,
    cancel: bool,
) -> Result<(), Failure<String>> {
    transaction.convert(&raw(&fp(input)), &raw(&fp(output)), format);
    drive(transaction, disk, cancel)
}

fn commit(transaction: &mut OutputTransaction, disk: &mut Disk) -> Result<(), Failure<String>> {
    transaction.commit();
    drive(transaction, disk, false)
}

fn rollback(transaction: &mut OutputTransaction, disk: &mut Disk) -> Result<(), Failure<String>> {
    transaction.rollback();
    drive(transaction, disk, false)
}

fn arrange_at(
    disk: &mut Disk,
    root: &FilePath,
    outputs: &[FilePath],
) -> Result<OrderReport, String> {
    let mut arrangement = arrange_output(root, outputs, 7, SEP);
    while let Some(action) = arrangement.pending() {
        match &action {
            Action::List(folder) => {
                if disk.get(folder) == Some(&Item::Folder) {
                    let entries = disk
                        .names(folder)
                        .into_iter()
                        .map(|name| DirEntry {
                            name,
                            attributes: 0,
                        })
                        .collect();
                    arrangement.resume_listed(&entries);
                } else {
                    arrangement.resume(&Outcome::Failed(
                        Fault::NotFound,
                        "not found".to_string(),
                    ));
                }
            }
            other => {
                let outcome = disk.perform(other);
                arrangement.resume(&outcome);
            }
        }
    }
    arrangement.report()
}

fn arrange(disk: &mut Disk, root: &str, outputs: &[&str]) -> Result<OrderReport, String> {
    let outputs: Vec<FilePath> = outputs.iter().map(|path| fp(path)).collect();
    arrange_at(disk, &fp(root), &outputs)
}

// -- taking a job back

#[test]
fn cancelling_whole_job_restores_overwrites_and_removes_completed_new_outputs() {
    let mut disk = Disk::default();
    disk.folder("/fixture/output");
    disk.write("/fixture/input.wav", &sound(44_100));
    let input_bytes = disk.read("/fixture/input.wav");
    disk.write(
        "/fixture/output/01 existing.wav",
        b"original destination bytes",
    );
    disk.write("/fixture/output/keep.txt", b"unrelated");
    let mut transaction = open(&mut disk, "/fixture/output");
    for output in [
        "/fixture/output/01 existing.wav",
        "/fixture/output/new album/02 new.wav",
    ] {
        convert(
            &mut transaction,
            &mut disk,
            "/fixture/input.wav",
            output,
            OutputFormat::Preserve,
            false,
        )
        .unwrap();
    }
    assert_ne!(
        disk.read("/fixture/output/01 existing.wav"),
        b"original destination bytes"
    );
    assert!(disk.has("/fixture/output/new album/02 new.wav"));
    let error = convert(
        &mut transaction,
        &mut disk,
        "/fixture/input.wav",
        "/fixture/output/03 cancelled.wav",
        OutputFormat::Preserve,
        true,
    )
    .unwrap_err();
    assert!(is_cancelled(&error));
    rollback(&mut transaction, &mut disk).unwrap();
    assert_eq!(
        disk.read("/fixture/output/01 existing.wav"),
        b"original destination bytes"
    );
    assert_eq!(disk.read("/fixture/output/keep.txt"), b"unrelated");
    assert_eq!(disk.read("/fixture/input.wav"), input_bytes);
    assert!(!disk.has("/fixture/output/new album"));
    assert_eq!(disk.count("/fixture"), 2);
}

#[test]
fn failed_conversion_does_not_replace_existing_destination_or_leave_output_folder() {
    let mut disk = Disk::default();
    disk.folder("/fixture");
    disk.write("/fixture/broken.wav", b"not audio");
    let mut transaction = open(&mut disk, "/fixture/output");
    assert!(convert(
        &mut transaction,
        &mut disk,
        "/fixture/broken.wav",
        "/fixture/output/new.wav",
        OutputFormat::Preserve,
        false
    )
    .is_err());
    assert!(!disk.has("/fixture/output"));
    disk.folder("/fixture/output");
    disk.write("/fixture/output/existing.wav", b"keep original");
    assert!(convert(
        &mut transaction,
        &mut disk,
        "/fixture/broken.wav",
        "/fixture/output/existing.wav",
        OutputFormat::Preserve,
        false
    )
    .is_err());
    commit(&mut transaction, &mut disk).unwrap();
    assert_eq!(disk.read("/fixture/output/existing.wav"), b"keep original");
    assert_eq!(disk.count("/fixture"), 2);
}

#[test]
fn cancellation_after_directory_ordering_still_restores_every_original() {
    let mut disk = Disk::default();
    disk.folder("/fixture/output/Disc 2");
    disk.write("/fixture/source.wav", &sound(44_100));
    let original = "/fixture/output/Disc 2/02 original.wav";
    let new = "/fixture/output/Disc 1/01 new.wav";
    disk.write(original, b"original");
    let mut transaction = open(&mut disk, "/fixture/output");
    for output in [original, new] {
        convert(
            &mut transaction,
            &mut disk,
            "/fixture/source.wav",
            output,
            OutputFormat::Preserve,
            false,
        )
        .unwrap();
    }
    arrange(&mut disk, "/fixture/output", &[original, new]).unwrap();
    rollback(&mut transaction, &mut disk).unwrap();
    assert_eq!(disk.read(original), b"original");
    assert!(!disk.has("/fixture/output/Disc 1"));
    assert_eq!(disk.count("/fixture"), 2);
}

#[test]
fn in_place_sources_survive_cancellation_and_are_removed_only_on_commit() {
    let mut disk = Disk::default();
    disk.folder("/fixture");
    let input = "/fixture/01 Artist - Title.wav";
    let output = "/fixture/01 Title.wav";
    disk.write(input, &sound(48_000));
    let original = disk.read(input);
    let mut transaction = open(&mut disk, "/fixture");
    convert(
        &mut transaction,
        &mut disk,
        input,
        output,
        OutputFormat::Pcm16_44100,
        false,
    )
    .unwrap();
    transaction.defer_source_removal(&raw(&fp(input)));
    assert_eq!(disk.read(input), original);
    rollback(&mut transaction, &mut disk).unwrap();
    assert_eq!(disk.read(input), original);
    assert!(!disk.has(output));
    let mut transaction = open(&mut disk, "/fixture");
    convert(
        &mut transaction,
        &mut disk,
        input,
        output,
        OutputFormat::Pcm16_44100,
        false,
    )
    .unwrap();
    transaction.defer_source_removal(&raw(&fp(input)));
    commit(&mut transaction, &mut disk).unwrap();
    assert!(!disk.has(input));
    assert_eq!(rate_of(&disk.read(output)), Some(44_100));
}

#[test]
fn input_that_was_overwritten_by_an_earlier_track_decodes_its_original_bytes() {
    let mut disk = Disk::default();
    disk.folder("/fixture");
    let (input, later_input, later_output) = (
        "/fixture/input.wav",
        "/fixture/later.wav",
        "/fixture/last.wav",
    );
    disk.write(input, &sound(44_100));
    disk.write(later_input, &sound(48_000));
    let original_later = disk.read(later_input);
    let mut transaction = open(&mut disk, "/fixture");
    convert(
        &mut transaction,
        &mut disk,
        input,
        later_input,
        OutputFormat::Preserve,
        false,
    )
    .unwrap();
    transaction.defer_source_removal(&raw(&fp(input)));
    convert(
        &mut transaction,
        &mut disk,
        later_input,
        later_output,
        OutputFormat::Preserve,
        false,
    )
    .unwrap();
    transaction.defer_source_removal(&raw(&fp(later_input)));
    assert_eq!(rate_of(&disk.read(later_output)), Some(48_000));
    rollback(&mut transaction, &mut disk).unwrap();
    assert_eq!(disk.read(later_input), original_later);
    assert!(disk.has(input));
    assert!(!disk.has(later_output));
}

#[test]
fn repeated_destination_restores_pre_job_bytes_and_same_path_commit_keeps_result() {
    let mut disk = Disk::default();
    disk.folder("/fixture");
    let input = "/fixture/input.wav";
    disk.write(input, &sound(48_000));
    let original = disk.read(input);
    let mut transaction = open(&mut disk, "/fixture");
    convert(
        &mut transaction,
        &mut disk,
        input,
        input,
        OutputFormat::Pcm16_44100,
        false,
    )
    .unwrap();
    convert(
        &mut transaction,
        &mut disk,
        input,
        input,
        OutputFormat::Preserve,
        false,
    )
    .unwrap();
    assert_eq!(rate_of(&disk.read(input)), Some(48_000));
    rollback(&mut transaction, &mut disk).unwrap();
    assert_eq!(disk.read(input), original);
    let mut transaction = open(&mut disk, "/fixture");
    convert(
        &mut transaction,
        &mut disk,
        input,
        input,
        OutputFormat::Pcm16_44100,
        false,
    )
    .unwrap();
    transaction.defer_source_removal(&raw(&fp(input)));
    commit(&mut transaction, &mut disk).unwrap();
    assert_eq!(rate_of(&disk.read(input)), Some(44_100));
}

#[test]
fn drop_rolls_back_and_keeps_unrelated_files_added_to_new_output_directory() {
    let mut disk = Disk::default();
    disk.folder("/fixture");
    disk.write("/fixture/input.wav", &sound(44_100));
    let mut transaction = open(&mut disk, "/fixture/output");
    convert(
        &mut transaction,
        &mut disk,
        "/fixture/input.wav",
        "/fixture/output/new.wav",
        OutputFormat::Preserve,
        false,
    )
    .unwrap();
    disk.write("/fixture/output/unrelated.txt", b"keep");
    assert!(!transaction.is_finished());
    rollback(&mut transaction, &mut disk).unwrap();
    assert!(!disk.has("/fixture/output/new.wav"));
    assert_eq!(disk.read("/fixture/output/unrelated.txt"), b"keep");
}

#[test]
fn locked_output_keeps_recovery_backup_until_a_later_rollback_can_restore_it() {
    let mut disk = Disk::default();
    disk.folder("/fixture/output");
    disk.write("/fixture/input.wav", &sound(44_100));
    let destination = "/fixture/output/existing.wav";
    disk.write(destination, b"original before job");
    let mut transaction = open(&mut disk, "/fixture/output");
    convert(
        &mut transaction,
        &mut disk,
        "/fixture/input.wav",
        destination,
        OutputFormat::Preserve,
        false,
    )
    .unwrap();
    disk.lock(destination);
    let error = rollback(&mut transaction, &mut disk).unwrap_err();
    assert!(error.text.contains("복구 폴더"));
    let workspace = disk
        .names(&fp("/fixture"))
        .into_iter()
        .find(|name| name.starts_with(".wav-converter-job-"))
        .unwrap();
    let workspace = fp("/fixture").child(&workspace);
    assert!(disk.get(&workspace.child("recovery.txt")).is_some());
    let backup = disk
        .names(&workspace)
        .into_iter()
        .find(|name| name.starts_with("original-"))
        .unwrap();
    assert_eq!(
        disk.get(&workspace.child(&backup)),
        Some(&Item::File(b"original before job".to_vec()))
    );
    disk.locked.clear();
    rollback(&mut transaction, &mut disk).unwrap();
    assert_eq!(disk.read(destination), b"original before job");
    assert!(disk.get(&workspace).is_none());
}

#[test]
fn failed_source_cleanup_preparation_is_still_fully_reversible() {
    let mut disk = Disk::default();
    disk.folder("/fixture");
    let (first, second) = ("/fixture/first.wav", "/fixture/second.wav");
    disk.write(first, &sound(44_100));
    disk.write(second, &sound(48_000));
    let first_bytes = disk.read(first);
    let second_bytes = disk.read(second);
    let (first_output, second_output) = ("/fixture/new first.wav", "/fixture/new second.wav");
    let mut transaction = open(&mut disk, "/fixture");
    for (input, output) in [(first, first_output), (second, second_output)] {
        convert(
            &mut transaction,
            &mut disk,
            input,
            output,
            OutputFormat::Preserve,
            false,
        )
        .unwrap();
        transaction.defer_source_removal(&raw(&fp(input)));
    }
    disk.lock(second);
    assert!(commit(&mut transaction, &mut disk).is_err());
    assert!(!transaction.is_committed());
    assert!(!disk.has(first));
    rollback(&mut transaction, &mut disk).unwrap();
    disk.locked.clear();
    assert_eq!(disk.read(first), first_bytes);
    assert_eq!(disk.read(second), second_bytes);
    assert!(!disk.has(first_output));
    assert!(!disk.has(second_output));
}

#[test]
fn commit_refuses_unresolved_original_backup_without_purging_or_removing_sources() {
    let mut disk = Disk::default();
    disk.folder("/fixture");
    disk.write("/fixture/source.flac", b"source bytes");
    let destination = "/fixture/output.wav";
    let mut transaction = open(&mut disk, "/fixture");
    let backup = transaction.next_path("original", Some("wav".to_string()));
    disk.write(&show(&backup), b"only remaining original copy");
    transaction.outputs.push(Output {
        destination: fp(destination),
        original: Some(backup.copy()),
        published: false,
    });
    transaction.defer_source_removal(&raw(&fp("/fixture/source.flac")));

    assert!(commit(&mut transaction, &mut disk).is_err());
    assert!(!transaction.is_committed());
    assert_eq!(disk.read(&show(&backup)), b"only remaining original copy");
    assert_eq!(disk.read("/fixture/source.flac"), b"source bytes");
    rollback(&mut transaction, &mut disk).unwrap();
    assert_eq!(disk.read(destination), b"only remaining original copy");
}

#[test]
fn commit_refuses_missing_or_non_file_output_before_removing_originals() {
    for replaced_by_directory in [false, true] {
        let mut disk = Disk::default();
        disk.folder("/fixture");
        disk.write("/fixture/source.flac", b"source bytes");
        let destination = "/fixture/output.wav";
        let mut transaction = open(&mut disk, "/fixture");
        let backup = transaction.next_path("original", Some("wav".to_string()));
        disk.write(&show(&backup), b"original destination");
        transaction.outputs.push(Output {
            destination: fp(destination),
            original: Some(backup.copy()),
            published: true,
        });
        transaction.defer_source_removal(&raw(&fp("/fixture/source.flac")));
        if replaced_by_directory {
            disk.folder(destination);
        }

        assert!(commit(&mut transaction, &mut disk).is_err());
        assert!(!transaction.is_committed());
        assert_eq!(disk.read("/fixture/source.flac"), b"source bytes");
        assert_eq!(disk.read(&show(&backup)), b"original destination");
        if replaced_by_directory {
            disk.perform(&Action::RemoveFolder(fp(destination)));
        }
        rollback(&mut transaction, &mut disk).unwrap();
        assert_eq!(disk.read(destination), b"original destination");
    }
}

#[test]
fn names_in_the_workspace_are_numbered_and_keep_extensions() {
    let mut disk = Disk::default();
    disk.folder("/fixture");
    let mut transaction = open(&mut disk, "/fixture");
    let workspace = show(transaction.workspace());
    assert!(workspace.starts_with("/.wav-converter-job-"));
    let first = transaction.next_path("original", Some("wav".to_string()));
    let second = transaction.next_path("converted", None);
    assert_eq!(show(&first), format!("{workspace}/original-1.wav"));
    assert_eq!(show(&second), format!("{workspace}/converted-2"));
}

#[test]
fn jobs_refuse_paths_outside_the_output_folder() {
    let mut disk = Disk::default();
    disk.folder("/fixture/output");
    disk.write("/fixture/input.wav", &sound(44_100));
    let mut transaction = open(&mut disk, "/fixture/output");
    for outside in ["/fixture/other.wav", "/fixture/output"] {
        let error = convert(
            &mut transaction,
            &mut disk,
            "/fixture/input.wav",
            outside,
            OutputFormat::Preserve,
            false,
        )
        .unwrap_err();
        assert_eq!(
            error.text,
            "출력 파일이 선택한 출력 폴더 밖에 있습니다"
        );
    }
    let up = RawPath {
        root: "/".to_string(),
        steps: vec![Component::Name("a".to_string()), Component::Parent, Component::Parent],
    };
    transaction.convert(
        &raw(&fp("/fixture/input.wav")),
        &up,
        OutputFormat::Preserve,
    );
    assert_eq!(
        transaction.result().unwrap_err().text,
        "잘못된 파일 경로입니다"
    );
    assert!(OutputTransaction::new(&up, false, SEP).is_err());
    rollback(&mut transaction, &mut disk).unwrap();
    assert_eq!(
        convert(
            &mut transaction,
            &mut disk,
            "/fixture/input.wav",
            "/fixture/output/a.wav",
            OutputFormat::Preserve,
            false
        )
        .unwrap_err()
        .text,
        "이미 종료된 변환 작업입니다"
    );
}

#[test]
fn a_folder_in_the_place_of_a_result_is_left_alone() {
    let mut disk = Disk::default();
    disk.folder("/fixture/output/01.wav");
    disk.write("/fixture/input.wav", &sound(44_100));
    let mut transaction = open(&mut disk, "/fixture/output");
    let error = convert(
        &mut transaction,
        &mut disk,
        "/fixture/input.wav",
        "/fixture/output/01.wav",
        OutputFormat::Preserve,
        false,
    )
    .unwrap_err();
    assert_eq!(
        error.text,
        "기존 출력이 일반 파일이 아닙니다: /fixture/output/01.wav"
    );
    assert_eq!(disk.get(&fp("/fixture/output/01.wav")), Some(&Item::Folder));
}

#[test]
fn a_file_in_the_place_of_a_folder_is_refused() {
    let mut disk = Disk::default();
    disk.folder("/fixture/output");
    disk.write("/fixture/output/album", b"a file");
    disk.write("/fixture/input.wav", &sound(44_100));
    let mut transaction = open(&mut disk, "/fixture/output");
    let error = convert(
        &mut transaction,
        &mut disk,
        "/fixture/input.wav",
        "/fixture/output/album/01.wav",
        OutputFormat::Preserve,
        false,
    )
    .unwrap_err();
    assert_eq!(
        error.text,
        "출력 경로가 일반 폴더가 아닙니다: /fixture/output/album"
    );
}

#[test]
fn a_result_that_cannot_be_stored_leaves_the_original_in_place() {
    let mut disk = Disk::default();
    disk.folder("/fixture/output");
    disk.write("/fixture/input.wav", &sound(44_100));
    let destination = "/fixture/output/01.wav";
    disk.write(destination, b"original");
    let mut transaction = open(&mut disk, "/fixture/output");
    transaction.convert(
        &raw(&fp("/fixture/input.wav")),
        &raw(&fp(destination)),
        OutputFormat::Preserve,
    );
    // The staged result disappears before it is moved to its place.
    while let Some(action) = transaction.pending() {
        let outcome = match &action {
            Action::Convert { .. } => Outcome::Converted { cancelled: false },
            other => disk.perform(other),
        };
        transaction.resume(&outcome);
    }
    let error = transaction.result().unwrap_err();
    assert_eq!(error.text, "변환 결과 저장 실패: not found");
    assert_eq!(disk.read(destination), b"original");
    assert!(transaction.outputs.is_empty());
    commit(&mut transaction, &mut disk).unwrap();
    assert!(transaction.is_committed());
    assert_eq!(disk.read(destination), b"original");
    assert!(transaction.is_idle());
    assert!(transaction.has_names());
}

#[test]
fn names_that_differ_in_case_lead_to_one_file_where_case_does_not_count() {
    let root = fp("/fixture");
    let mut disk = Disk::default();
    disk.folder("/fixture");
    for (fold_case, left) in [(true, 1), (false, 0)] {
        disk.write("/fixture/ÄPFEL.wav", b"first");
        disk.write("/fixture/äpfel.wav", b"second");
        let mut opening = OutputTransaction::new(&raw(&root), fold_case, SEP).unwrap();
        while let Some(action) = opening.pending() {
            let outcome = disk.perform(&action);
            opening.resume(&outcome);
        }
        let mut transaction = opening.finish().unwrap();
        transaction.defer_source_removal(&raw(&fp("/fixture/ÄPFEL.wav")));
        transaction.defer_source_removal(&raw(&fp("/fixture/äpfel.wav")));
        commit(&mut transaction, &mut disk).unwrap();
        assert!(!disk.has("/fixture/ÄPFEL.wav"));
        assert_eq!(disk.count("/fixture"), left);
    }
}

// -- putting results into order

#[test]
fn empty_job_has_no_verified_directories_and_leaves_existing_files_alone() {
    let mut disk = Disk::default();
    disk.folder("/fixture");
    disk.write("/fixture/07 existing.wav", b"existing song");

    let report = arrange(&mut disk, "/fixture", &[]).unwrap();

    assert!(!report.physical_order_verified);
    assert!(report.checked_directories.is_empty());
    assert_eq!(disk.read("/fixture/07 existing.wav"), b"existing song");
    assert_eq!(disk.count("/fixture"), 1);
    let report = arrange(&mut disk, "/fixture/not created", &[]).unwrap();
    assert!(!report.physical_order_verified);
    assert!(report.checked_directories.is_empty());
    assert!(!disk.has("/fixture/not created"));
}

#[test]
fn missing_output_fails_before_rebuilding_existing_directories() {
    let mut disk = Disk::default();
    disk.folder("/fixture/album");
    let existing = "/fixture/album/07 existing.wav";
    let missing = "/fixture/album/01 missing.wav";
    disk.write(existing, b"existing song");

    let error = arrange(&mut disk, "/fixture/album", &[existing, missing]).unwrap_err();

    assert!(error.contains(missing));
    assert_eq!(disk.read(existing), b"existing song");
    assert_eq!(disk.count("/fixture/album"), 1);
    assert_eq!(disk.count("/fixture"), 1);
}

#[test]
fn directory_cannot_stand_in_for_a_completed_output_file() {
    let mut disk = Disk::default();
    disk.folder("/fixture/01 not a file.wav");
    disk.write("/fixture/01 not a file.wav/keep.txt", b"untouched");

    let error = arrange(&mut disk, "/fixture", &["/fixture/01 not a file.wav"]).unwrap_err();

    assert!(error.contains("일반 파일이 아닙니다"));
    assert_eq!(
        disk.read("/fixture/01 not a file.wav/keep.txt"),
        b"untouched"
    );
}

#[test]
fn linked_output_is_rejected_without_moving_its_target() {
    let mut disk = Disk::default();
    disk.folder("/fixture/album");
    disk.write("/fixture/original.wav", b"original song");
    let link = "/fixture/album/01 linked.wav";
    disk.put(&fp(link), Item::Link);

    let error = arrange(&mut disk, "/fixture/album", &[link]).unwrap_err();

    assert!(error.contains("일반 파일이 아닙니다"));
    assert_eq!(disk.get(&fp(link)), Some(&Item::Link));
    assert_eq!(disk.read("/fixture/original.wav"), b"original song");
}

#[test]
fn existing_disc_two_first_is_reinserted_without_changing_files() {
    let mut disk = Disk::default();
    let mut outputs = Vec::new();
    for disc in ["Disc 2", "Disc 1"] {
        disk.folder(&format!("/existing/{disc}"));
        for track in ["03.wav", "01.wav", "02.wav"] {
            let path = format!("/existing/{disc}/{track}");
            disk.write(&path, format!("{disc}/{track}").as_bytes());
            outputs.push(path);
        }
    }
    disk.write("/existing/cover.jpg", b"keep cover");
    let previous_song = "/existing/Disc 2/04 previous.wav";
    disk.write(previous_song, b"keep previous song");
    let paths: Vec<&str> = outputs.iter().map(|path| path.as_str()).collect();
    for _ in 0..2 {
        let report = arrange(&mut disk, "/existing", &paths).unwrap();
        assert!(report.physical_order_verified);
        assert_eq!(report.checked_directories.len(), 3);
        for (directory, names) in &report.checked_directories {
            assert_eq!(*names, disk.names(directory));
        }
        assert!(report.checked_directories.iter().any(|(directory, names)| {
            show(directory) == "/existing/Disc 2" && names.contains(&"04 previous.wav".to_string())
        }));
        assert_eq!(disk.read(previous_song), b"keep previous song");
        for path in &outputs {
            let relative = path.strip_prefix("/existing/").unwrap();
            assert_eq!(disk.read(path), relative.as_bytes());
        }
        assert_eq!(disk.read("/existing/cover.jpg"), b"keep cover");
        let discs: Vec<String> = disk
            .names(&fp("/existing"))
            .into_iter()
            .filter(|name| name.starts_with("Disc"))
            .collect();
        assert_eq!(discs, ["Disc 1", "Disc 2"]);
    }
}

#[test]
fn arranging_stays_in_the_output_folder() {
    let mut disk = Disk::default();
    disk.folder("/card/music");
    disk.write("/card/b.txt", b"b");
    disk.write("/card/a.txt", b"a");
    disk.write("/card/music/2.wav", b"2");
    disk.write("/card/music/1.wav", b"1");
    let report = arrange(&mut disk, "/card/music", &["/card/music/2.wav"]).unwrap();
    assert_eq!(report.checked_directories.len(), 1);
    assert_eq!(disk.names(&fp("/card/music")), ["1.wav", "2.wav"]);
    assert_eq!(disk.names(&fp("/card")), ["music", "b.txt", "a.txt"]);
}

#[test]
fn an_output_in_the_place_of_the_output_folder_counts_every_folder_above() {
    let mut disk = Disk::default();
    disk.folder("/card");
    disk.write("/card/b.wav", b"b");
    disk.write("/card/a.wav", b"a");
    disk.write("/about.txt", b"about");
    let report = arrange(&mut disk, "/card/b.wav", &["/card/b.wav"]).unwrap();
    assert_eq!(disk.names(&fp("/card")), ["a.wav", "b.wav"]);
    assert_eq!(disk.names(&fp("/")), ["about.txt", "card"]);
    let checked: Vec<String> = report
        .checked_directories
        .iter()
        .map(|(folder, _)| show(folder))
        .collect();
    assert_eq!(checked, ["/card", "/"]);
    // The empty path is no folder.
    let mut relative = arrange_output(&fp(""), &[fp("a.wav")], 7, SEP);
    assert!(matches!(relative.pending(), Some(Action::Inspect(_))));
    relative.resume(&Outcome::Found(Kind::File));
    assert!(relative.pending().is_none());
    assert!(relative.report().unwrap().checked_directories.is_empty());
}

#[test]
fn arranging_twice_lists_the_same() {
    let mut disk = Disk::default();
    disk.folder("/card");
    for name in ["10.wav", "2.wav", "cover.jpg", "1.wav"] {
        disk.write(&format!("/card/{name}"), name.as_bytes());
    }
    let first = arrange(&mut disk, "/card", &["/card/2.wav"]).unwrap();
    let listed = disk.names(&fp("/card"));
    let second = arrange(&mut disk, "/card", &["/card/2.wav"]).unwrap();
    assert_eq!(listed, ["1.wav", "2.wav", "10.wav", "cover.jpg"]);
    assert_eq!(disk.names(&fp("/card")), listed);
    assert_eq!(first.checked_directories[0].1, listed);
    assert_eq!(second.checked_directories[0].1, listed);
    for name in &listed {
        assert_eq!(disk.read(&format!("/card/{name}")), name.as_bytes());
    }
}

#[test]
fn locked_file_rolls_back_already_moved_entries() {
    let mut disk = Disk::default();
    disk.folder("/locked");
    disk.write("/locked/01.wav", b"first");
    disk.write("/locked/02.wav", b"locked");
    disk.lock("/locked/02.wav");
    let error =
        arrange(&mut disk, "/locked", &["/locked/01.wav", "/locked/02.wav"]).unwrap_err();
    assert!(error.starts_with("순서 정리 실패: /locked. 남은 파일은 복구 폴더 "));
    disk.locked.clear();
    assert_eq!(disk.read("/locked/01.wav"), b"first");
    assert_eq!(disk.read("/locked/02.wav"), b"locked");
    assert_eq!(disk.count("/locked"), 2);
}

#[test]
fn leftovers_and_unordered_disks_are_reported() {
    let mut disk = Disk::default();
    disk.folder("/out/.wav-converter-order-1-2");
    disk.write("/out/b.wav", b"b");
    disk.write("/out/a.wav", b"a");
    let error = arrange(&mut disk, "/out", &["/out/a.wav"]).unwrap_err();
    assert_eq!(
        error,
        "이전 순서 정리의 복구 폴더가 있습니다: /out/.wav-converter-order-1-2"
    );
    disk.perform(&Action::RemoveFolder(fp("/out/.wav-converter-order-1-2")));
    disk.backwards = true;
    let error = arrange(&mut disk, "/out", &["/out/a.wav"]).unwrap_err();
    assert_eq!(
        error,
        "파일은 보존했지만 파일시스템에서 요청한 기록 순서를 확인할 수 없습니다: /out"
    );
    disk.backwards = false;
    arrange(&mut disk, "/out", &["/out/a.wav"]).unwrap();
    assert_eq!(disk.names(&fp("/out")), ["a.wav", "b.wav"]);
    let error = arrange(&mut disk, "/out", &["/other/a.wav"]).unwrap_err();
    assert_eq!(error, "출력 경로가 선택한 폴더 밖에 있습니다");
}

#[test]
fn hidden_entries_stay_where_they_are() {
    let mut sorting =
        wav_converter::sorting::Sorting::new(fp("/out"), ".wav-converter-order-7-".to_string(), SEP);
    let entries = [("b.wav", 0), ("System Volume Information", 6), ("a.wav", 32), ("h", 2)]
        .into_iter()
        .map(|(name, attributes)| DirEntry {
            name: name.to_string(),
            attributes,
        })
        .collect();
    assert!(matches!(sorting.pending(), Some(Action::List(_))));
    sorting.resume_listed(&entries);
    assert_eq!(*sorting.entries(), ["a.wav", "b.wav"]);
    assert!(matches!(
        sorting.pending(),
        Some(Action::CreateUnique { .. })
    ));
}

// -- one file

#[test]
fn already_cancelled_does_not_create_an_output_directory() {
    let mut disk = Disk::default();
    disk.folder("/dir");
    let output = fp("/dir/new-album/result.wav");
    let conversion = convert_file_cancellable(
        &fp("/dir/not-opened.wav"),
        &output,
        OutputFormat::Preserve,
        SEP,
        true,
    );
    let error = finish_conversion(conversion, &mut disk, None).unwrap_err();

    assert!(is_cancelled(&error));
    assert!(!disk.has("/dir/new-album"));
}

/// Cancels once the partial result is written.
fn cancel_after_output_has_started(format: OutputFormat, step: usize) {
    let mut disk = Disk::default();
    disk.folder("/dir/output");
    disk.write("/dir/source.wav", &sound(48_000));
    let previous_output = b"existing output must survive cancellation";
    disk.write("/dir/output/result.wav", previous_output);
    let conversion = convert_file_cancellable(
        &fp("/dir/source.wav"),
        &fp("/dir/output/result.wav"),
        format,
        SEP,
        false,
    );
    let error = finish_conversion(conversion, &mut disk, Some(step)).unwrap_err();
    assert!(
        is_cancelled(&error),
        "취소를 실패와 구분해야 한다: {}",
        error.text
    );
    assert!(disk.serial > 0, "변환 결과가 실제 기록된 뒤 취소해야 한다");
    assert_eq!(disk.read("/dir/output/result.wav"), previous_output);
    assert_eq!(disk.count("/dir/output"), 1, "임시 WAV가 남으면 안 된다");
    assert_eq!(disk.read("/dir/source.wav"), sound(48_000));
}

#[test]
fn cancel_during_direct_conversion_removes_partial_and_preserves_existing_output() {
    cancel_after_output_has_started(OutputFormat::Preserve, 3);
}

#[test]
fn cancel_during_resampling_removes_partial_and_preserves_existing_output() {
    cancel_after_output_has_started(OutputFormat::Pcm24_96000, 4);
}

#[test]
fn in_place_conversion_replaces_sources_of_other_formats() {
    let mut disk = Disk::default();
    disk.folder("/music");
    disk.write("/music/other.flac", &sound(48_000));
    let conversion = convert_in_place(
        &fp("/music/other.flac"),
        OutputFormat::Pcm16_44100,
        false,
        SEP,
    );
    finish_conversion(conversion, &mut disk, None).unwrap();
    assert_eq!(disk.names(&fp("/music")), ["other.wav"]);
    assert_eq!(rate_of(&disk.read("/music/other.wav")), Some(44_100));
}

#[test]
fn renamed_in_place_conversion_overwrites_existing_destination() {
    let mut disk = Disk::default();
    disk.folder("/naming");
    let source = fp("/naming/01 Artist - Song.wav");
    let target = wav_path(&source, true);
    disk.write(&show(&source), &sound(44_100));
    disk.write(&show(&target), b"existing output");
    let conversion = convert_in_place_to(&source, &target, OutputFormat::Preserve, false, SEP);
    finish_conversion(conversion, &mut disk, None).unwrap();
    assert!(disk.get(&source).is_none());
    assert_eq!(disk.read(&show(&target)), sound(44_100));
    assert_eq!(disk.count("/naming"), 1);
}

#[test]
fn in_place_results_survive_where_case_does_not_count() {
    for (fold_case, survives) in [(true, true), (false, false)] {
        let mut disk = Disk::default();
        disk.folder("/music");
        disk.write("/music/Song.WAV", &sound(44_100));
        let conversion = convert_in_place(
            &fp("/music/Song.WAV"),
            OutputFormat::Preserve,
            fold_case,
            SEP,
        );
        finish_conversion(conversion, &mut disk, None).unwrap();
        assert_eq!(rate_of(&disk.read("/music/Song.wav")), Some(44_100));
        assert_eq!(disk.has("/music/Song.WAV"), survives);
    }
}

#[test]
fn nothing_can_be_saved_at_a_root() {
    let mut disk = Disk::default();
    disk.write("/in.mp3", &sound(48_000));
    for format in [OutputFormat::Preserve, OutputFormat::Pcm16_44100] {
        let conversion = convert_file(&fp("/in.mp3"), &fp("/"), format, SEP);
        let error = finish_conversion(conversion, &mut disk, None).unwrap_err();
        assert_eq!(error.text, "WAV 저장 실패: /: WAV 파일 생성 실패");
        assert!(!is_cancelled(&error));
        assert_eq!(disk.names(&fp("/")), ["in.mp3"]);
    }
}

#[test]
fn failed_conversion_preserves_existing_output() {
    let mut disk = Disk::default();
    disk.folder("/failed");
    disk.write("/failed/bad.mp3", b"invalid audio");
    disk.write("/failed/out.wav", b"previous output");
    let conversion = convert_file(
        &fp("/failed/bad.mp3"),
        &fp("/failed/out.wav"),
        OutputFormat::Preserve,
        SEP,
    );
    let error = finish_conversion(conversion, &mut disk, None).unwrap_err();
    assert_eq!(
        error.text,
        "디코딩 실패: /failed/bad.mp3: 지원하지 않는 포맷이거나 손상된 파일"
    );
    assert!(!is_cancelled(&error));
    assert_eq!(disk.read("/failed/out.wav"), b"previous output");
    assert_eq!(disk.count("/failed"), 2);
}

// -- whole jobs

/// The entries below a folder, in natural order, as a walk gives them.
fn walk(disk: &Disk, folder: &FilePath, below: &FilePath, found: &mut Vec<(FilePath, bool)>) {
    let mut names = disk.names(folder);
    names.sort_by(|a, b| natural_cmp(a, b));
    for name in names {
        let path = folder.child(&name);
        let relative = below.child(&name);
        let is_file = matches!(disk.get(&path), Some(Item::File(_)));
        found.push((relative.copy(), is_file));
        if disk.get(&path) == Some(&Item::Folder) {
            walk(disk, &path, &relative, found);
        }
    }
}

/// Carries a job out. After the first conversion the user cancels, if `cancel` says so.
fn run_job(app: &mut App, disk: &mut Disk, cancel: bool) -> Vec<String> {
    let settings = app.start_job(SEP, "diagnostics.log");
    let input = settings.input.copy();
    let output = settings.output.copy();
    let mut control = JobControl::default();
    let mut worker = Worker::new(settings);
    let mut transaction: Option<OutputTransaction> = None;
    let mut entries: Vec<(FilePath, bool)> = Vec::new();
    let missing = disk.get(&input).is_none();
    walk(disk, &input, &fp(""), &mut entries);
    entries.reverse();
    let mut scanned = false;
    let mut notices = Vec::new();
    while let Some(action) = worker.pending() {
        let cancelled = control.cancelled();
        match action {
            WorkAction::Continue => worker.resume(&WorkEvent::Ready, cancelled),
            WorkAction::ListFolder(folder) => {
                let listed: Vec<Neighbour> = disk
                    .names(&folder)
                    .into_iter()
                    .map(|name| Neighbour {
                        is_file: matches!(disk.get(&folder.child(&name)), Some(Item::File(_))),
                        name,
                    })
                    .collect();
                worker.resume_surveyed(&listed);
            }
            WorkAction::NextEntry => {
                if missing && !scanned {
                    scanned = true;
                    worker.resume(&WorkEvent::Failed("not found".to_string()), cancelled);
                } else {
                    match entries.pop() {
                        Some((relative, is_file)) => {
                            worker.resume_found(&relative, is_file, cancelled)
                        }
                        None => worker.resume(&WorkEvent::End, cancelled),
                    }
                }
            }
            WorkAction::ReadTrack(_) => worker.resume(&WorkEvent::NoTrack, cancelled),
            WorkAction::Open(root) => match open_at(disk, &root) {
                Ok(opened) => {
                    transaction = Some(opened);
                    worker.resume(&WorkEvent::Ready, cancelled);
                }
                Err(text) => worker.resume(&WorkEvent::Failed(text), cancelled),
            },
            WorkAction::Convert {
                source,
                destination,
                format,
            } => {
                let job = transaction.as_mut().unwrap();
                job.convert(&raw(&source), &raw(&destination), format);
                let event = match drive(job, disk, control.cancel) {
                    Ok(()) => WorkEvent::Ready,
                    Err(failure) if is_cancelled(&failure) => WorkEvent::Cancelled,
                    Err(failure) => WorkEvent::Failed(failure.text),
                };
                if cancel {
                    control.request_cancel();
                }
                worker.resume(&event, control.cancelled());
            }
            WorkAction::Defer(source) => {
                transaction
                    .as_mut()
                    .unwrap()
                    .defer_source_removal(&raw(&source));
                worker.resume(&WorkEvent::Ready, cancelled);
            }
            WorkAction::Arrange => match arrange_at(disk, &output, &worker.targets()) {
                Ok(report) => worker.resume_ordered(&report),
                Err(text) => worker.resume(&WorkEvent::Failed(text), cancelled),
            },
            WorkAction::Claim => {
                let granted = control.begin_commit();
                worker.resume(&WorkEvent::Granted(granted), cancelled);
            }
            WorkAction::Rollback => {
                let event = match rollback(transaction.as_mut().unwrap(), disk) {
                    Ok(()) => WorkEvent::Ready,
                    Err(failure) => WorkEvent::Failed(failure.text),
                };
                worker.resume(&event, cancelled);
            }
            WorkAction::Keep => {
                let files = worker
                    .targets()
                    .iter()
                    .map(|path| matches!(disk.get(path), Some(Item::File(_))))
                    .collect();
                worker.resume_kept(&files);
            }
            WorkAction::Commit => {
                let job = transaction.as_mut().unwrap();
                let event = match commit(job, disk) {
                    Ok(()) => WorkEvent::Ready,
                    Err(failure) => WorkEvent::CommitFailed {
                        committed: job.is_committed(),
                        text: failure.text,
                    },
                };
                worker.resume(&event, cancelled);
            }
        }
        for msg in worker.take_messages() {
            if let Some(notice) = app.accept(msg) {
                notices.push(notice);
            }
        }
    }
    assert!(app.job.is_none());
    notices
}

#[test]
fn cancel_after_a_completed_track_rolls_back_entire_gui_job() {
    for (in_place, overwrite) in [(false, false), (false, true), (true, true)] {
        let mut disk = Disk::default();
        disk.folder("/fixture/input");
        let input = "/fixture/input";
        let output = if in_place { input } else { "/fixture/output" };
        let source = "/fixture/input/01 Artist - Song.wav";
        disk.write(source, &sound(44_100));
        disk.write("/fixture/input/02 Artist - Next.wav", &sound(44_100));
        let original_source = disk.read(source);
        let destination = format!("{output}/01 Song.wav");
        if overwrite {
            disk.folder(output);
            disk.write(&destination, b"previous output");
            disk.write(&format!("{output}/keep.txt"), b"unrelated");
            disk.write(&format!("{output}/03 Existing.wav"), b"third original");
            disk.write(&format!("{output}/02 Existing.wav"), b"second original");
        }
        let mut app = App {
            input_dir: Some(fp(input)),
            output_dir: Some(fp(output)),
            same_as_input: in_place,
            remove_artist: true,
            ..Default::default()
        };
        run_job(&mut app, &mut disk, true);
        assert!(app.summary.as_deref().unwrap().starts_with("취소 완료"));
        assert!(app.output_warning.is_none());
        assert_eq!(disk.read(source), original_source);
        assert!(!disk.has(&format!("{output}/02 Next.wav")));
        if overwrite {
            assert_eq!(disk.read(&destination), b"previous output");
            assert_eq!(disk.read(&format!("{output}/keep.txt")), b"unrelated");
            assert_eq!(
                disk.read(&format!("{output}/02 Existing.wav")),
                b"second original"
            );
            assert_eq!(
                disk.read(&format!("{output}/03 Existing.wav")),
                b"third original"
            );
            let names = disk.names(&fp(output));
            let mut sorted = names.clone();
            sorted.sort_by(|a, b| natural_cmp(a, b));
            assert_eq!(
                names, sorted,
                "restored output must retain numbered directory order"
            );
        } else {
            assert!(
                !disk.has(output),
                "newly created output folder must be removed"
            );
        }
        assert!(disk
            .names(&fp("/fixture"))
            .iter()
            .all(|name| !name.starts_with(".wav-converter-job-")));
    }
}

#[test]
fn successful_in_place_gui_job_commits_results_and_removes_old_source() {
    let mut disk = Disk::default();
    disk.folder("/fixture/album");
    let source = "/fixture/album/01 Artist - Song.wav";
    disk.write(source, &sound(44_100));
    let mut app = App {
        input_dir: Some(fp("/fixture/album")),
        same_as_input: true,
        remove_artist: true,
        ..Default::default()
    };
    let notices = run_job(&mut app, &mut disk, false);
    assert!(app.summary.as_deref().unwrap().starts_with("✅"));
    assert!(!disk.has(source));
    assert_eq!(
        frames_of(&disk.read("/fixture/album/01 Song.wav")),
        Some(1000)
    );
    assert_eq!(disk.count("/fixture"), 1);
    assert_eq!(notices, ["변환 성공 1개 · 실패 0개"]);
}

#[test]
fn failed_conversion_is_not_presented_as_complete_success() {
    let mut disk = Disk::default();
    disk.folder("/input");
    disk.folder("/output");
    disk.write("/input/01 broken.wav", b"invalid WAV");
    let mut app = App {
        input_dir: Some(fp("/input")),
        output_dir: Some(fp("/output")),
        ..Default::default()
    };
    run_job(&mut app, &mut disk, false);
    assert!(app.summary.as_deref().unwrap().contains("일부 변환 실패"));
    assert!(app.output_warning.is_some());
    assert!(!app.log.iter().any(|line| line.starts_with('✓')));
    assert_eq!(disk.count("/output"), 0);
}

#[test]
fn unreadable_input_is_reported_as_failure() {
    let mut disk = Disk::default();
    disk.folder("/fixture");
    let mut app = App {
        input_dir: Some(fp("/fixture/missing input")),
        output_dir: Some(fp("/fixture/output")),
        ..Default::default()
    };
    run_job(&mut app, &mut disk, false);
    assert!(app.summary.as_deref().unwrap().contains("실패 1개"));
    assert!(app.output_warning.is_some());
    assert!(app.log.iter().any(|line| line.contains("입력 탐색 실패")));
    assert!(!disk.has("/fixture/output"));
}

#[test]
fn a_whole_job_accounts_for_every_file() {
    let mut app = App {
        input_dir: Some(fp("/in")),
        output_dir: Some(fp("/out")),
        ..Default::default()
    };
    let settings = app.start_job(SEP, "diagnostics.log");
    let mut worker = Worker::new(settings);
    let mut events = vec![
        WorkEvent::Failed("unreadable".to_string()),
        WorkEvent::End,
        WorkEvent::Ready,
        WorkEvent::Ready,
        WorkEvent::Ready,
        WorkEvent::Ready,
        WorkEvent::Ready,
        WorkEvent::Failed("broken".to_string()),
        WorkEvent::Panicked,
        WorkEvent::Failed("full".to_string()),
        WorkEvent::Granted(true),
        WorkEvent::Ready,
    ];
    events.reverse();
    for name in ["1.mp3", "2.mp3", "3.mp3", "notes.txt"] {
        worker.resume_found(&fp(name), true, false);
    }
    let mut last = None;
    while worker.pending().is_some() {
        worker.resume(&events.pop().unwrap(), false);
        if let Some(msg) = worker.take_messages().pop() {
            last = Some(msg);
        }
    }
    assert!(events.is_empty());
    assert!(matches!(last, Some(Msg::Finished { ok: 1, failed: 3 })), "{last:?}");
}

#[test]
fn a_whole_job_converts_orders_and_reports() {
    let mut disk = Disk::default();
    disk.folder("/music/CD 2");
    disk.folder("/music/CD 10");
    disk.folder("/card");
    disk.write("/music/CD 10/노래.mp3", &sound(48_000));
    disk.write("/music/CD 2/02 b.flac", &sound(44_100));
    disk.write("/music/CD 2/1 a.flac", &sound(44_100));
    disk.write("/music/CD 2/cover.jpg", b"picture");
    disk.write("/card/old.wav", b"old");
    let mut app = App {
        input_dir: Some(fp("/music")),
        output_dir: Some(fp("/card/out")),
        ..Default::default()
    };
    let notices = run_job(&mut app, &mut disk, false);
    assert_eq!(disk.names(&fp("/card/out")), ["CD 2", "CD 10"]);
    assert_eq!(disk.names(&fp("/card/out/CD 2")), ["1 a.wav", "02 b.wav"]);
    assert!(disk.has("/card/out/CD 10/노래.wav"));
    assert_eq!(
        app.summary.as_deref(),
        Some("✅ 완료 — 성공 3개, 실패 0개")
    );
    assert!(app.filename_warning.as_deref().unwrap().contains("CD 10/노래.wav"));
    assert!(app
        .log
        .iter()
        .any(|line| line == "목록 /card/out/CD 2: 1 a.wav → 02 b.wav"));
    assert!(app
        .log
        .iter()
        .any(|line| line == "⚠ 번호를 붙이지 않음: /music/CD 10/노래.mp3 — 트랙 번호 태그 없음"));
    assert_eq!(disk.count("/card"), 2);
    assert_eq!(notices.len(), 1);
}

#[test]
fn a_cleanup_that_fails_after_the_commit_keeps_the_results() {
    let mut disk = Disk::default();
    disk.folder("/fixture/output");
    disk.write("/fixture/input.wav", &sound(44_100));
    let destination = "/fixture/output/01.wav";
    disk.write(destination, b"original");
    let mut transaction = open(&mut disk, "/fixture/output");
    convert(
        &mut transaction,
        &mut disk,
        "/fixture/input.wav",
        destination,
        OutputFormat::Preserve,
        false,
    )
    .unwrap();
    let backup = transaction.outputs[0].original.as_ref().unwrap().copy();
    disk.lock(&show(&backup));
    let error = commit(&mut transaction, &mut disk).unwrap_err();
    assert!(error
        .text
        .starts_with("변환은 완료됐지만 복구용 임시 파일 정리에 실패했습니다"));
    assert!(transaction.is_committed());
    rollback(&mut transaction, &mut disk).unwrap();
    assert_eq!(disk.read(destination), sound(44_100));
    assert!(disk.get(&backup).is_some());
}

#[test]
fn a_job_that_cannot_be_committed_is_taken_back() {
    let mut disk = Disk::default();
    disk.folder("/album");
    let source = "/album/01 Artist - Song.wav";
    disk.write(source, &sound(44_100));
    disk.lock(source);
    let mut app = App {
        input_dir: Some(fp("/album")),
        same_as_input: true,
        remove_artist: true,
        disable_ordering: true,
        ..Default::default()
    };
    run_job(&mut app, &mut disk, false);
    assert!(app
        .summary
        .as_deref()
        .unwrap()
        .contains("성공 0개, 실패 1개"));
    assert!(app
        .output_warning
        .as_deref()
        .unwrap()
        .contains("이번 작업의 변경 사항을 되돌렸습니다."));
    assert_eq!(disk.names(&fp("/album")), ["01 Artist - Song.wav"]);
    assert_eq!(disk.read(source), sound(44_100));
}

#[test]
fn the_tree_of_folders_is_kept() {
    let volume = |root: &str, name: &str| FilePath {
        root: root.to_string(),
        parts: vec![name.to_string()],
    };
    let mut app = App {
        input_dir: Some(volume("C:\\", "음악")),
        output_dir: Some(volume("D:\\", "wav")),
        disable_track_prefix: true,
        ..Default::default()
    };
    let mut worker = Worker::new(app.start_job("\\", "record.log"));
    assert!(matches!(worker.pending(), Some(WorkAction::NextEntry)));
    worker.resume_found(&fp("앨범A/track1.mp3"), true, false);
    worker.resume_found(&fp("앨범A/cover.jpg"), true, false);
    worker.resume(&WorkEvent::End, false);
    assert!(worker
        .take_messages()
        .iter()
        .any(|msg| matches!(msg, Msg::Total(1))));
    assert!(matches!(worker.pending(), Some(WorkAction::Continue)));
    worker.resume(&WorkEvent::Ready, false);
    assert!(matches!(worker.pending(), Some(WorkAction::Open(_))));
    worker.resume(&WorkEvent::Ready, false);
    match worker.pending() {
        Some(WorkAction::Convert {
            source,
            destination,
            ..
        }) => {
            assert_eq!(source.show("\\"), "C:\\음악\\앨범A\\track1.mp3");
            assert_eq!(destination.show("\\"), "D:\\wav\\앨범A\\track1.wav");
        }
        other => panic!("{other:?}"),
    }
}

#[test]
fn results_hold_what_was_converted_in_the_format_asked_for() {
    for (format, rate) in [
        (OutputFormat::Preserve, 48_000),
        (OutputFormat::Pcm16_44100, 44_100),
        (OutputFormat::Pcm24_96000, 96_000),
    ] {
        let mut disk = Disk::default();
        disk.folder("/fixture/output");
        disk.write("/fixture/one.wav", &sound(44_100));
        disk.write("/fixture/output/two.wav", &sound(48_000));
        let mut transaction = open(&mut disk, "/fixture/output");
        convert(
            &mut transaction,
            &mut disk,
            "/fixture/one.wav",
            "/fixture/output/two.wav",
            OutputFormat::Preserve,
            false,
        )
        .unwrap();
        assert_eq!(
            rate_of(&disk.read("/fixture/output/two.wav")),
            Some(44_100)
        );
        // The second input was overwritten by then: what stood there is converted.
        convert(
            &mut transaction,
            &mut disk,
            "/fixture/output/two.wav",
            "/fixture/output/two.wav",
            format,
            false,
        )
        .unwrap();
        commit(&mut transaction, &mut disk).unwrap();
        assert_eq!(rate_of(&disk.read("/fixture/output/two.wav")), Some(rate));
    }
}

#[test]
fn the_format_that_the_user_picked_is_asked_for() {
    let mut app = App {
        input_dir: Some(fp("/in")),
        output_dir: Some(fp("/out")),
        format: OutputFormat::Pcm24_48000,
        ..Default::default()
    };
    let mut worker = Worker::new(app.start_job(SEP, "diagnostics.log"));
    assert!(worker.can_count());
    worker.resume_found(&fp("1.mp3"), true, false);
    for event in [WorkEvent::End, WorkEvent::Ready, WorkEvent::Ready] {
        worker.resume(&event, false);
    }
    assert!(matches!(
        worker.pending(),
        Some(WorkAction::Convert {
            format: OutputFormat::Pcm24_48000,
            ..
        })
    ));
}

#[test]
fn the_workspace_lies_beside_the_output_folder() {
    let mut disk = Disk::default();
    disk.folder("/a/b");
    let beside = open(&mut disk, "/a/b").workspace().copy();
    assert_eq!(show(&beside.prefix(1)), "/a");
    assert!(!beside.is_within(&fp("/a/b")));
    let above = open(&mut disk, "/a/b/c/d/e").workspace().copy();
    assert_eq!(show(&above.prefix(2)), "/a/b");
    let root = open(&mut disk, "/").workspace().copy();
    assert_eq!(root.parts.len(), 1);
    disk.write("/a/file", b"x");
    assert_eq!(
        open_at(&mut disk, &fp("/a/file/c")).unwrap_err(),
        "출력 경로가 일반 폴더가 아닙니다: /a/file"
    );
}

#[test]
fn a_finished_job_does_nothing_more() {
    let mut disk = Disk::default();
    disk.folder("/fixture");
    disk.write("/fixture/input.wav", &sound(44_100));
    let mut transaction = open(&mut disk, "/fixture");
    rollback(&mut transaction, &mut disk).unwrap();
    assert!(transaction.is_finished());
    let before = disk.items.clone();
    commit(&mut transaction, &mut disk).unwrap();
    assert!(!transaction.is_committed());
    rollback(&mut transaction, &mut disk).unwrap();
    assert_eq!(disk.items, before);
}

#[test]
fn files_that_are_kept_are_noted_first() {
    let mut disk = Disk::default();
    disk.folder("/fixture/output");
    disk.write("/fixture/input.wav", &sound(44_100));
    disk.write("/fixture/output/01.wav", b"original");
    let mut transaction = open(&mut disk, "/fixture/output");
    convert(
        &mut transaction,
        &mut disk,
        "/fixture/input.wav",
        "/fixture/output/01.wav",
        OutputFormat::Preserve,
        false,
    )
    .unwrap();
    let workspace = show(transaction.workspace());
    assert_eq!(
        disk.read(&format!("{workspace}/recovery.txt")),
        format!("{workspace}/original-2.wav -> /fixture/output/01.wav\n").into_bytes()
    );
}
