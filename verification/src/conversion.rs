//! The course of converting one file, step by step. The result is written beside its destination
//! first, so that a file that stands there is replaced only by a whole result.
use crate::convert::{target, target_of, OutputFormat, SourceInfo, Target};
use crate::disk::{refused, removal_refusal, removal_refused, report, Failure, Outcome};
use crate::journal::because;
use crate::naming::{wav_path, wav_path_of};
use crate::path::{same_path, FilePath, PathView};
use crate::text::glue;
use crate::transaction::with_cause;
use vstd::prelude::*;

verus! {

/// Where a conversion stands.
#[derive(Debug, Clone, Copy, PartialEq, Eq, Structural)]
pub enum ConversionStage {
    /// Decoding the source.
    Decode,
    /// Bringing the samples to another rate.
    Resample,
    /// Creating the folder of the result.
    Folder,
    /// Creating a file for the partial result.
    Partial,
    /// Writing it.
    Write,
    /// Moving it to its destination.
    Publish,
    /// Removing it.
    Discard,
    /// Removing the source, which the result replaces.
    RemoveSource,
    Over,
}

/// One thing to do for a conversion.
#[derive(Debug)]
pub enum Task<P> {
    /// Nothing: the conversion is over.
    Nothing,
    Decode(P),
    Resample { from_rate: u32, to_rate: u32, channels: usize },
    /// Create a folder and all above it.
    CreateFolders(P),
    /// Create a new, empty file in a folder.
    CreateFile(P),
    /// Write the samples as a WAV file.
    Write { file: P, channels: usize, target: Target },
    Rename { from: P, to: P },
    RemoveFile(P),
}

impl View for Task<FilePath> {
    type V = Task<PathView>;

    open spec fn view(&self) -> Task<PathView> {
        match self {
            Task::Nothing => Task::Nothing,
            Task::Decode(p) => Task::Decode(p@),
            Task::Resample { from_rate, to_rate, channels } => Task::Resample {
                from_rate: *from_rate,
                to_rate: *to_rate,
                channels: *channels,
            },
            Task::CreateFolders(p) => Task::CreateFolders(p@),
            Task::CreateFile(p) => Task::CreateFile(p@),
            Task::Write { file, channels, target } => Task::Write {
                file: file@,
                channels: *channels,
                target: *target,
            },
            Task::Rename { from, to } => Task::Rename { from: from@, to: to@ },
            Task::RemoveFile(p) => Task::RemoveFile(p@),
        }
    }
}

/// The conversion of one file.
#[verifier::ext_equal]
pub struct ConversionView {
    pub input: PathView,
    pub output: PathView,
    pub format: OutputFormat,
    /// The result replaces its source.
    pub in_place: bool,
    /// Names that differ only in case lead to one file.
    pub fold_case: bool,
    pub separator: Seq<char>,
    pub stage: ConversionStage,
    pub source: SourceInfo,
    pub partial: PathView,
    pub failure: Option<Failure<Seq<char>>>,
}

impl ConversionView {
    /// A conversion begins. One that is cancelled already does not touch the disk.
    pub open spec fn start(
        input: PathView,
        output: PathView,
        format: OutputFormat,
        in_place: bool,
        fold_case: bool,
        separator: Seq<char>,
        cancelled: bool,
    ) -> ConversionView {
        let v = ConversionView {
            input,
            output,
            format,
            in_place,
            fold_case,
            separator,
            stage: ConversionStage::Decode,
            source: SourceInfo { sample_rate: 0, channels: 0, bits: None },
            partial: output,
            failure: None,
        };
        if cancelled {
            v.cancel(ConversionStage::Over)
        } else {
            v
        }
    }

    pub open spec fn target(self) -> Target {
        target_of(self.format, self.source)
    }

    /// The folder of the result.
    pub open spec fn folder(self) -> PathView {
        if self.output.parts.len() > 0 {
            self.output.prefix(self.output.parts.len() - 1)
        } else {
            self.output
        }
    }

    /// What is said where the result cannot be saved.
    pub open spec fn saving(self) -> Seq<char> {
        "WAV 저장 실패: "@ + self.output.shown(self.separator)
    }

    /// The samples are ready to be saved. No file can be saved at a root.
    pub open spec fn ready(self) -> ConversionView {
        if self.output.parts.len() > 0 {
            self.at(ConversionStage::Folder)
        } else {
            self.fail(ConversionStage::Over, because(self.saving(), "WAV 파일 생성 실패"@))
        }
    }

    pub open spec fn at(self, stage: ConversionStage) -> ConversionView {
        ConversionView { stage, ..self }
    }

    pub open spec fn cancel(self, stage: ConversionStage) -> ConversionView {
        ConversionView {
            stage,
            failure: Some(Failure { cancelled: true, text: "변환이 취소되었습니다"@ }),
            ..self
        }
    }

    pub open spec fn fail(self, stage: ConversionStage, text: Seq<char>) -> ConversionView {
        ConversionView { stage, failure: Some(Failure { cancelled: false, text }), ..self }
    }

    /// What is left to do after a step that did its work, was cancelled, or failed.
    pub open spec fn after(
        self,
        o: Outcome<Seq<char>>,
        message: Seq<char>,
        next: ConversionStage,
        otherwise: ConversionStage,
    ) -> ConversionView {
        match o {
            Outcome::Failed(_, cause) => self.fail(otherwise, because(message, cause)),
            Outcome::Cancelled | Outcome::Converted { cancelled: true } => self.cancel(otherwise),
            _ => self.at(next),
        }
    }

    /// The source was decoded.
    pub open spec fn decoded(self, source: SourceInfo) -> ConversionView {
        let v = ConversionView { source, ..self };
        if self.stage != ConversionStage::Decode {
            self
        } else if v.target().sample_rate != source.sample_rate {
            v.at(ConversionStage::Resample)
        } else {
            v.ready()
        }
    }

    pub open spec fn task(self) -> Task<PathView> {
        match self.stage {
            ConversionStage::Decode => Task::Decode(self.input),
            ConversionStage::Resample => Task::Resample {
                from_rate: self.source.sample_rate,
                to_rate: self.target().sample_rate,
                channels: self.source.channels,
            },
            ConversionStage::Folder => Task::CreateFolders(self.folder()),
            ConversionStage::Partial => Task::CreateFile(self.folder()),
            ConversionStage::Write => Task::Write {
                file: self.partial,
                channels: self.source.channels,
                target: self.target(),
            },
            ConversionStage::Publish => Task::Rename { from: self.partial, to: self.output },
            ConversionStage::Discard => Task::RemoveFile(self.partial),
            ConversionStage::RemoveSource => Task::RemoveFile(self.input),
            ConversionStage::Over => Task::Nothing,
        }
    }

    pub open spec fn step(self, o: Outcome<Seq<char>>) -> ConversionView {
        let input = self.input.shown(self.separator);
        let saving = self.saving();
        match self.stage {
            ConversionStage::Decode => self.after(
                o,
                "디코딩 실패: "@ + input,
                ConversionStage::Decode,
                ConversionStage::Over,
            ),
            ConversionStage::Resample => {
                let v = self.after(
                    o,
                    "리샘플링 실패: "@ + input,
                    ConversionStage::Folder,
                    ConversionStage::Over,
                );
                if v.stage == ConversionStage::Folder {
                    v.ready()
                } else {
                    v
                }
            },
            ConversionStage::Folder => self.after(
                o,
                "폴더 생성 실패: "@ + self.folder().shown(self.separator),
                ConversionStage::Partial,
                ConversionStage::Over,
            ),
            ConversionStage::Partial => match o {
                Outcome::Created(name) => ConversionView {
                    partial: self.folder().child(name),
                    stage: ConversionStage::Write,
                    ..self
                },
                _ => self.after(o, saving, ConversionStage::Partial, ConversionStage::Over),
            },
            ConversionStage::Write => self.after(
                o,
                saving,
                ConversionStage::Publish,
                ConversionStage::Discard,
            ),
            ConversionStage::Publish => self.after(
                o,
                saving,
                if self.in_place && self.input.key(self.fold_case) != self.output.key(
                    self.fold_case,
                ) {
                    ConversionStage::RemoveSource
                } else {
                    ConversionStage::Over
                },
                ConversionStage::Discard,
            ),
            ConversionStage::Discard => self.at(ConversionStage::Over),
            ConversionStage::RemoveSource => match removal_refusal(o) {
                Some(cause) => self.fail(
                    ConversionStage::Over,
                    because("원본 삭제 실패: "@ + input, cause),
                ),
                None => self.at(ConversionStage::Over),
            },
            ConversionStage::Over => self,
        }
    }
}

/// The conversion of one file. It asks for one thing at a time: perform what `pending` returns and
/// hand the outcome to `resume`, or what was learned of the source to `resume_decoded`.
#[derive(Debug)]
pub struct Conversion {
    pub input: FilePath,
    pub output: FilePath,
    pub format: OutputFormat,
    pub in_place: bool,
    pub fold_case: bool,
    pub separator: String,
    pub stage: ConversionStage,
    pub source: SourceInfo,
    pub partial: FilePath,
    pub failure: Option<Failure<String>>,
}

impl View for Conversion {
    type V = ConversionView;

    open spec fn view(&self) -> ConversionView {
        ConversionView {
            input: self.input@,
            output: self.output@,
            format: self.format,
            in_place: self.in_place,
            fold_case: self.fold_case,
            separator: self.separator@,
            stage: self.stage,
            source: self.source,
            partial: self.partial@,
            failure: report(self.failure),
        }
    }
}

/// Begins a conversion.
fn begin(
    input: &FilePath,
    output: &FilePath,
    format: OutputFormat,
    in_place: bool,
    fold_case: bool,
    separator: &str,
    cancelled: bool,
) -> (r: Conversion)
    ensures
        r@ == ConversionView::start(
            input@,
            output@,
            format,
            in_place,
            fold_case,
            separator@,
            cancelled,
        ),
{
    let mut r = Conversion {
        input: input.copy(),
        output: output.copy(),
        format,
        in_place,
        fold_case,
        separator: separator.to_owned(),
        stage: ConversionStage::Decode,
        source: SourceInfo { sample_rate: 0, channels: 0, bits: None },
        partial: output.copy(),
        failure: None,
    };
    if cancelled {
        r.cancel(ConversionStage::Over);
    }
    r
}

/// Begins to convert a file.
pub fn convert_file_cancellable(
    input: &FilePath,
    output: &FilePath,
    format: OutputFormat,
    separator: &str,
    cancelled: bool,
) -> (r: Conversion)
    ensures
        r@ == ConversionView::start(input@, output@, format, false, false, separator@, cancelled),
{
    begin(input, output, format, false, false, separator, cancelled)
}

/// Begins to convert a file that nobody can cancel.
pub fn convert_file(
    input: &FilePath,
    output: &FilePath,
    format: OutputFormat,
    separator: &str,
) -> (r: Conversion)
    ensures
        r@ == ConversionView::start(input@, output@, format, false, false, separator@, false),
{
    begin(input, output, format, false, false, separator, false)
}

/// Begins to replace a file by its conversion, under the name of the result.
pub fn convert_in_place_to(
    input: &FilePath,
    output: &FilePath,
    format: OutputFormat,
    fold_case: bool,
    separator: &str,
) -> (r: Conversion)
    ensures
        r@ == ConversionView::start(input@, output@, format, true, fold_case, separator@, false),
{
    begin(input, output, format, true, fold_case, separator, false)
}

/// Begins to replace a file by its conversion, which has its name and the extension of a WAV file.
pub fn convert_in_place(
    input: &FilePath,
    format: OutputFormat,
    fold_case: bool,
    separator: &str,
) -> (r: Conversion)
    ensures
        r@ == ConversionView::start(
            input@,
            wav_path_of(input@, false),
            format,
            true,
            fold_case,
            separator@,
            false,
        ),
{
    begin(input, &wav_path(input, false), format, true, fold_case, separator, false)
}

/// Whether a failure means that the user cancelled.
pub fn is_cancelled(failure: &Failure<String>) -> (r: bool)
    ensures
        r == failure@.cancelled,
{
    failure.cancelled
}

impl Conversion {
    fn cancel(&mut self, stage: ConversionStage)
        ensures
            final(self)@ == old(self)@.cancel(stage),
    {
        self.stage = stage;
        self.failure = Some(Failure { cancelled: true, text: "변환이 취소되었습니다".to_owned() });
    }

    fn after(
        &mut self,
        o: &Outcome<String>,
        message: &str,
        next: ConversionStage,
        otherwise: ConversionStage,
    )
        ensures
            final(self)@ == old(self)@.after(o@, message@, next, otherwise),
    {
        let stopped = match o {
            Outcome::Cancelled => true,
            Outcome::Converted { cancelled } => *cancelled,
            _ => false,
        };
        if stopped {
            self.cancel(otherwise);
            return;
        }
        match refused(o) {
            Some(cause) => {
                self.stage = otherwise;
                self.failure =
                Some(Failure { cancelled: false, text: with_cause(message, cause.as_str()) });
            },
            None => {
                self.stage = next;
            },
        }
    }

    fn folder(&self) -> (r: FilePath)
        ensures
            r@ == self@.folder(),
    {
        if self.output.parts.len() > 0 {
            self.output.prefix(self.output.parts.len() - 1)
        } else {
            self.output.copy()
        }
    }

    fn saving(&self) -> (r: String)
        ensures
            r@ == self@.saving(),
    {
        glue("WAV 저장 실패: ", self.output.show(self.separator.as_str()).as_str())
    }

    fn ready(&mut self)
        ensures
            final(self)@ == old(self)@.ready(),
    {
        if self.output.parts.len() > 0 {
            self.stage = ConversionStage::Folder;
        } else {
            let text = with_cause(self.saving().as_str(), "WAV 파일 생성 실패");
            self.stage = ConversionStage::Over;
            self.failure = Some(Failure { cancelled: false, text });
        }
    }

    /// What is to be done, or nothing once the conversion is over.
    pub fn pending(&self) -> (r: Task<FilePath>)
        ensures
            r@ == self@.task(),
    {
        match self.stage {
            ConversionStage::Decode => Task::Decode(self.input.copy()),
            ConversionStage::Resample => Task::Resample {
                from_rate: self.source.sample_rate,
                to_rate: target(self.format, &self.source).sample_rate,
                channels: self.source.channels,
            },
            ConversionStage::Folder => Task::CreateFolders(self.folder()),
            ConversionStage::Partial => Task::CreateFile(self.folder()),
            ConversionStage::Write => Task::Write {
                file: self.partial.copy(),
                channels: self.source.channels,
                target: target(self.format, &self.source),
            },
            ConversionStage::Publish => Task::Rename {
                from: self.partial.copy(),
                to: self.output.copy(),
            },
            ConversionStage::Discard => Task::RemoveFile(self.partial.copy()),
            ConversionStage::RemoveSource => Task::RemoveFile(self.input.copy()),
            ConversionStage::Over => Task::Nothing,
        }
    }

    /// Takes the next step, once the source has been decoded.
    pub fn resume_decoded(&mut self, source: SourceInfo)
        ensures
            final(self)@ == old(self)@.decoded(source),
    {
        if self.stage != ConversionStage::Decode {
            return;
        }
        self.source = source;
        if target(self.format, &source).sample_rate != source.sample_rate {
            self.stage = ConversionStage::Resample;
        } else {
            self.ready();
        }
    }

    /// Takes the next step, once something was done, was refused, or was cancelled.
    pub fn resume(&mut self, o: &Outcome<String>)
        ensures
            final(self)@ == old(self)@.step(o@),
    {
        let input = self.input.show(self.separator.as_str());
        let saving = self.saving();
        match self.stage {
            ConversionStage::Decode => {
                let message = glue("디코딩 실패: ", input.as_str());
                self.after(o, message.as_str(), ConversionStage::Decode, ConversionStage::Over);
            },
            ConversionStage::Resample => {
                let message = glue("리샘플링 실패: ", input.as_str());
                self.after(o, message.as_str(), ConversionStage::Folder, ConversionStage::Over);
                if self.stage == ConversionStage::Folder {
                    self.ready();
                }
            },
            ConversionStage::Folder => {
                let folder = self.folder().show(self.separator.as_str());
                let message = glue("폴더 생성 실패: ", folder.as_str());
                self.after(o, message.as_str(), ConversionStage::Partial, ConversionStage::Over);
            },
            ConversionStage::Partial => match o {
                Outcome::Created(name) => {
                    self.partial = self.folder().child(name.as_str());
                    self.stage = ConversionStage::Write;
                },
                _ => self.after(
                    o,
                    saving.as_str(),
                    ConversionStage::Partial,
                    ConversionStage::Over,
                ),
            },
            ConversionStage::Write => self.after(
                o,
                saving.as_str(),
                ConversionStage::Publish,
                ConversionStage::Discard,
            ),
            ConversionStage::Publish => {
                let next = if self.in_place && !same_path(
                    &self.input,
                    &self.output,
                    self.fold_case,
                ) {
                    ConversionStage::RemoveSource
                } else {
                    ConversionStage::Over
                };
                self.after(o, saving.as_str(), next, ConversionStage::Discard);
            },
            ConversionStage::Discard => {
                self.stage = ConversionStage::Over;
            },
            ConversionStage::RemoveSource => {
                self.stage = ConversionStage::Over;
                if let Some(cause) = removal_refused(o) {
                    let message = glue("원본 삭제 실패: ", input.as_str());
                    let text = with_cause(message.as_str(), cause.as_str());
                    self.failure = Some(Failure { cancelled: false, text });
                }
            },
            ConversionStage::Over => {},
        }
    }

    /// How the conversion ended.
    pub fn result(&self) -> (r: Result<(), Failure<String>>)
        ensures
            match r {
                Ok(_) => self@.failure is None,
                Err(failure) => self@.failure == Some(failure@),
            },
    {
        match &self.failure {
            None => Ok(()),
            Some(failure) => Err(
                Failure { cancelled: failure.cancelled, text: failure.text.clone() },
            ),
        }
    }
}

// ---------------------------------------------------------------------------
// Laws
// ---------------------------------------------------------------------------

/// A conversion that is cancelled before it begins asks for nothing.
pub proof fn a_cancelled_conversion_touches_nothing(
    input: PathView,
    output: PathView,
    format: OutputFormat,
    separator: Seq<char>,
)
    ensures
        ({
            let v = ConversionView::start(input, output, format, false, false, separator, true);
            &&& v.task() is Nothing
            &&& v.failure matches Some(failure) && failure.cancelled
        }),
{
}

/// The destination is touched by one task alone: the move of the whole result. Whatever fails or is
/// cancelled before leaves a file that stands there alone. Only then a source that is replaced is
/// removed, unless the result stands in its place.
pub proof fn only_a_whole_result_reaches_the_destination(v: ConversionView, o: Outcome<Seq<char>>)
    requires
        v.stage != ConversionStage::Over,
        v.stage != ConversionStage::Discard,
        v.stage != ConversionStage::RemoveSource,
        v.failure is None,
    ensures
        v.step(o).stage == ConversionStage::Over && v.step(o).failure is None ==> v.stage
            == ConversionStage::Publish,
        v.step(o).stage == ConversionStage::RemoveSource ==> v.stage == ConversionStage::Publish
            && v.in_place && v.input.key(v.fold_case) != v.output.key(v.fold_case) && !(o is Failed),
        v.task() is Rename <==> v.stage == ConversionStage::Publish,
{
}

/// A partial result that was begun is moved to the destination or removed: a conversion that has
/// begun to write it does not end before.
pub proof fn no_partial_result_is_left(v: ConversionView, o: Outcome<Seq<char>>)
    requires
        v.stage == ConversionStage::Write || v.stage == ConversionStage::Publish,
    ensures
        v.step(o).stage == ConversionStage::Over ==> v.task() == (Task::Rename {
            from: v.partial,
            to: v.output,
        }) && !(o is Failed),
        v.step(o).stage == ConversionStage::Discard ==> v.step(o).task() == Task::RemoveFile(
            v.partial,
        ),
        v.step(o).partial == v.partial,
{
}

/// The user cancelled meanwhile.
pub open spec fn was_cancelled(o: Outcome<Seq<char>>) -> bool {
    match o {
        Outcome::Cancelled | Outcome::Converted { cancelled: true } => true,
        _ => false,
    }
}

/// A conversion is reported as cancelled only where it was.
pub proof fn cancelling_is_not_failing(v: ConversionView, o: Outcome<Seq<char>>)
    requires
        v.stage != ConversionStage::Over,
        v.stage != ConversionStage::RemoveSource,
        v.failure is None,
        v.step(o).failure is Some,
    ensures
        v.step(o).failure->0.cancelled == was_cancelled(o),
{
}

/// What a conversion hears: what its source is, or what came of what it asked for.
pub enum Heard {
    Source(SourceInfo),
    Answer(Outcome<Seq<char>>),
}

/// A conversion after all that it has heard.
pub open spec fn course(v: ConversionView, heard: Seq<Heard>) -> ConversionView
    decreases heard.len(),
{
    if heard.len() == 0 {
        v
    } else {
        let before = course(v, heard.drop_last());
        match heard.last() {
            Heard::Source(source) => before.decoded(source),
            Heard::Answer(o) => before.step(o),
        }
    }
}

/// The first source that a conversion was told of.
pub open spec fn first_source(heard: Seq<Heard>) -> Option<SourceInfo>
    decreases heard.len(),
{
    if heard.len() == 0 {
        None
    } else {
        match (first_source(heard.drop_last()), heard.last()) {
            (Some(source), _) => Some(source),
            (None, Heard::Source(source)) => Some(source),
            _ => None,
        }
    }
}

proof fn lemma_course(
    input: PathView,
    output: PathView,
    format: OutputFormat,
    in_place: bool,
    fold_case: bool,
    separator: Seq<char>,
    heard: Seq<Heard>,
)
    ensures
        ({
            let v = course(
                ConversionView::start(
                    input,
                    output,
                    format,
                    in_place,
                    fold_case,
                    separator,
                    false,
                ),
                heard,
            );
            &&& v.input == input
            &&& v.output == output
            &&& v.format == format
            &&& v.in_place == in_place
            &&& v.fold_case == fold_case
            &&& v.separator == separator
            &&& v.stage == ConversionStage::Decode ==> v.failure is None
            &&& v.stage != ConversionStage::Decode && v.stage != ConversionStage::Over
                ==> first_source(heard) == Some(v.source)
            &&& first_source(heard) is Some ==> v.stage != ConversionStage::Decode
            &&& v.stage == ConversionStage::Folder || v.stage == ConversionStage::Partial || v.stage
                == ConversionStage::Write || v.stage == ConversionStage::Publish ==> output.parts.len()
                > 0
            &&& v.stage == ConversionStage::Resample ==> v.target().sample_rate
                != v.source.sample_rate
        }),
    decreases heard.len(),
{
    if heard.len() > 0 {
        lemma_course(input, output, format, in_place, fold_case, separator, heard.drop_last());
    }
}

/// The rate at which a source is written: that of the format, or its own.
pub open spec fn rate_for(format: OutputFormat, source: SourceInfo) -> u32 {
    match format {
        OutputFormat::Preserve => source.sample_rate,
        OutputFormat::Pcm16_44100 => 44_100,
        OutputFormat::Pcm16_48000 => 48_000,
        OutputFormat::Pcm24_48000 => 48_000,
        OutputFormat::Pcm24_96000 => 96_000,
    }
}

/// Whatever a conversion hears, what it asks for goes by its input, its output, its format and the
/// source that it was told of: the input alone is decoded; samples are brought from the rate of the
/// source to that of the format, and written at that rate, with the channels of the source; folders
/// and files are made where the output goes; only the output is replaced, and only the input is
/// removed, in place.
pub proof fn conversions_go_by_what_they_were_told(
    input: PathView,
    output: PathView,
    format: OutputFormat,
    in_place: bool,
    fold_case: bool,
    separator: Seq<char>,
    heard: Seq<Heard>,
)
    ensures
        ({
            let v = course(
                ConversionView::start(
                    input,
                    output,
                    format,
                    in_place,
                    fold_case,
                    separator,
                    false,
                ),
                heard,
            );
            let folder = PathView { root: output.root, parts: output.parts.drop_last() };
            match v.task() {
                Task::Nothing => true,
                Task::Decode(p) => p == input && first_source(heard) is None,
                Task::Resample { from_rate, to_rate, channels } => {
                    &&& first_source(heard) matches Some(source)
                    &&& from_rate == source.sample_rate
                    &&& to_rate == rate_for(format, source)
                    &&& channels == source.channels
                    &&& from_rate != to_rate
                },
                Task::CreateFolders(p) => p == folder,
                Task::CreateFile(p) => p == folder,
                Task::Write { file, channels, target } => {
                    &&& first_source(heard) matches Some(source)
                    &&& channels == source.channels
                    &&& target.sample_rate == rate_for(format, source)
                    &&& target.bits == match format {
                        OutputFormat::Preserve => match source.bits {
                            Some(bits) => if bits > 16 {
                                24u16
                            } else {
                                16u16
                            },
                            None => 16u16,
                        },
                        OutputFormat::Pcm16_44100 => 16u16,
                        OutputFormat::Pcm16_48000 => 16u16,
                        OutputFormat::Pcm24_48000 => 24u16,
                        OutputFormat::Pcm24_96000 => 24u16,
                    }
                },
                Task::Rename { from, to } => to == output,
                Task::RemoveFile(p) => p == v.partial || p == input && in_place && input.key(
                    fold_case,
                ) != output.key(fold_case),
            }
        }),
{
    lemma_course(input, output, format, in_place, fold_case, separator, heard);
    lemma_removal(input, output, format, in_place, fold_case, separator, heard);
    assert(output.parts.len() > 0 ==> output.parts.take(output.parts.len() - 1)
        =~= output.parts.drop_last());
}

proof fn lemma_removal(
    input: PathView,
    output: PathView,
    format: OutputFormat,
    in_place: bool,
    fold_case: bool,
    separator: Seq<char>,
    heard: Seq<Heard>,
)
    ensures
        course(
            ConversionView::start(input, output, format, in_place, fold_case, separator, false),
            heard,
        ).stage == ConversionStage::RemoveSource ==> in_place && input.key(fold_case) != output.key(
            fold_case,
        ),
    decreases heard.len(),
{
    if heard.len() > 0 {
        lemma_removal(input, output, format, in_place, fold_case, separator, heard.drop_last());
        lemma_course(input, output, format, in_place, fold_case, separator, heard.drop_last());
    }
}

/// A conversion in whose way nothing stands does all its work, step by step: it decodes the input,
/// brings the samples to another rate where the format asks for one, creates the folder of the
/// output and a new file there, writes that file, moves it to the output, and in place removes the
/// input, unless that is the output. Then it has succeeded.
pub proof fn an_unhindered_conversion_does_all_its_work(
    input: PathView,
    output: PathView,
    format: OutputFormat,
    in_place: bool,
    fold_case: bool,
    separator: Seq<char>,
    source: SourceInfo,
    name: Seq<char>,
)
    requires
        output.parts.len() > 0,
    ensures
        ({
            let start = ConversionView::start(
                input,
                output,
                format,
                in_place,
                fold_case,
                separator,
                false,
            );
            let folder = PathView { root: output.root, parts: output.parts.drop_last() };
            let partial = PathView { root: output.root, parts: folder.parts.push(name) };
            let rate = rate_for(format, source);
            let done = Outcome::<Seq<char>>::Done;
            let decoded = start.decoded(source);
            let ready = if rate == source.sample_rate {
                decoded
            } else {
                decoded.step(done)
            };
            let empty = ready.step(done).step(Outcome::Created(name));
            let published = empty.step(done).step(done);
            &&& start.task() == Task::Decode(input)
            &&& rate != source.sample_rate ==> decoded.task() == (Task::<PathView>::Resample {
                from_rate: source.sample_rate,
                to_rate: rate,
                channels: source.channels,
            })
            &&& ready.task() == Task::CreateFolders(folder)
            &&& ready.step(done).task() == Task::CreateFile(folder)
            &&& empty.task() matches Task::Write { file, channels, target }
            &&& file == partial && channels == source.channels && target.sample_rate == rate
            &&& empty.step(done).task() == (Task::Rename { from: partial, to: output })
            &&& if in_place && input.key(fold_case) != output.key(fold_case) {
                &&& published.task() == Task::RemoveFile(input)
                &&& published.step(done).task() is Nothing
                &&& published.step(done).failure is None
            } else {
                published.task() is Nothing && published.failure is None
            }
        }),
{
    assert(output.parts.take(output.parts.len() - 1) =~= output.parts.drop_last());
}

/// A conversion that fails says at what, for which file, and why, and is not taken for one that was
/// cancelled. A partial result is removed before.
pub proof fn failures_say_what_happened(v: ConversionView, fault: crate::disk::Fault, cause: Seq<char>)
    requires
        v.failure is None,
        v.stage != ConversionStage::Over,
        v.stage != ConversionStage::Discard,
        v.stage == ConversionStage::RemoveSource ==> fault != crate::disk::Fault::NotFound,
    ensures
        ({
            let w = v.step(Outcome::Failed(fault, cause));
            let at = match v.stage {
                ConversionStage::Decode => "디코딩 실패: "@ + v.input.shown(v.separator),
                ConversionStage::Resample => "리샘플링 실패: "@ + v.input.shown(v.separator),
                ConversionStage::Folder => "폴더 생성 실패: "@ + v.folder().shown(v.separator),
                ConversionStage::RemoveSource => "원본 삭제 실패: "@ + v.input.shown(v.separator),
                _ => "WAV 저장 실패: "@ + v.output.shown(v.separator),
            };
            &&& w.failure == Some(Failure { cancelled: false, text: at + ": "@ + cause })
            &&& if v.stage == ConversionStage::Write || v.stage == ConversionStage::Publish {
                w.task() == Task::RemoveFile(v.partial)
            } else {
                w.task() is Nothing
            }
        }),
{
}

/// A conversion that is cancelled ends, at whatever it is: a partial result is removed first, and
/// the destination and the source are left alone.
pub proof fn cancelled_conversions_stop(v: ConversionView, o: Outcome<Seq<char>>)
    requires
        v.failure is None,
        o is Cancelled || o == (Outcome::<Seq<char>>::Converted { cancelled: true }),
        !(v.stage is Over),
        !(v.stage is Discard),
        !(v.stage is RemoveSource),
    ensures
        ({
            let w = v.step(o);
            &&& w.failure == Some(Failure { cancelled: true, text: "변환이 취소되었습니다"@ })
            &&& v.stage is Write || v.stage is Publish ==> w.task() == Task::RemoveFile(v.partial)
            &&& v.stage is Write || v.stage is Publish ==> w.step(o).task() is Nothing
            &&& !(v.stage is Write) && !(v.stage is Publish) ==> w.task() is Nothing
        }),
{
}

/// A conversion begins by decoding its input, and goes by what it was given.
pub proof fn conversions_begin_with_their_input(
    input: PathView,
    output: PathView,
    in_place: bool,
    fold_case: bool,
    separator: Seq<char>,
    format: OutputFormat,
)
    ensures
        ({
            let v = ConversionView::start(
                input,
                output,
                format,
                in_place,
                fold_case,
                separator,
                false,
            );
            &&& v.task() == Task::Decode(input)
            &&& v.input == input && v.output == output && v.format == format
            &&& v.in_place == in_place && v.fold_case == fold_case && v.separator == separator
            &&& v.failure is None
        }),
{
}

/// Where results have no folder to lie in, nothing is saved.
pub proof fn nothing_is_saved_at_a_root(v: ConversionView, source: SourceInfo)
    requires
        v.stage is Decode,
        v.failure is None,
        v.output.parts.len() == 0,
        rate_for(v.format, source) == source.sample_rate,
    ensures
        v.decoded(source).task() is Nothing,
        v.decoded(source).failure == Some(
            Failure {
                cancelled: false,
                text: "WAV 저장 실패: "@ + v.output.shown(v.separator) + ": "@ + "WAV 파일 생성 실패"@,
            },
        ),
{
}

/// A source that is replaced and is gone already needs no removing: the conversion has succeeded. A
/// source that cannot be removed is an error, though the result stands.
pub proof fn sources_that_are_gone_are_no_error(v: ConversionView, cause: Seq<char>)
    requires
        v.stage is RemoveSource,
        v.failure is None,
    ensures
        v.task() == Task::RemoveFile(v.input),
        v.step(Outcome::Done).task() is Nothing && v.step(Outcome::Done).failure is None,
        v.step(Outcome::Failed(crate::disk::Fault::NotFound, cause)) == v.step(Outcome::Done),
        v.step(Outcome::Failed(crate::disk::Fault::Other, cause)).task() is Nothing,
        v.step(Outcome::Failed(crate::disk::Fault::Other, cause)).failure == Some(
            Failure {
                cancelled: false,
                text: "원본 삭제 실패: "@ + v.input.shown(v.separator) + ": "@ + cause,
            },
        ),
{
}

} // verus!
