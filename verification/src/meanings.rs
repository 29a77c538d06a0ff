//! What values say: the laws of the library speak of views, and views leave nothing out.
use crate::conversion::{Conversion, Task};
use crate::convert::{Decoding, OutputFormat, Packet, Target};
use crate::disk::{
    to_append, to_convert, to_create_folder, to_create_unique, to_inspect, to_list, to_move,
    to_probe, to_remove_folder, Action, Failure, Fault, Kind, Outcome,
};
use crate::path::{Component, FilePath, Move, PathView};
use crate::sorting::DirEntry;
use crate::window::{App, Job};
use crate::worker::{JobSettings, Msg, WorkAction, WorkEvent};
use vstd::prelude::*;

verus! {

/// A path says its root and its names, each at its place.
pub proof fn paths_say_their_names(p: FilePath, i: int)
    ensures
        p@.root == p.root@,
        p@.parts.len() == p.parts@.len(),
        0 <= i < p.parts@.len() ==> p@.parts[i] == p.parts@[i]@,
{
}

/// A step says where it leads.
pub proof fn steps_say_where_they_lead(name: String)
    ensures
        Component::Current@ is Stay,
        Component::Parent@ is Up,
        Component::Name(name)@ == Move::Down(name@),
{
}

/// A request to the disk says what is asked for, and where.
pub proof fn requests_say_what_is_asked_for(
    a: Action<FilePath, String>,
    from: FilePath,
    to: FilePath,
    line: String,
    format: OutputFormat,
)
    ensures
        a == (Action::<FilePath, String>::Rename { from, to }) ==> a@ == to_move(from@, to@),
        a == Action::<FilePath, String>::Probe(from) ==> a@ == to_probe(from@),
        a == Action::<FilePath, String>::Inspect(from) ==> a@ == to_inspect(from@),
        a == Action::<FilePath, String>::CreateFolder(from) ==> a@ == to_create_folder(from@),
        a == (Action::<FilePath, String>::CreateUnique { parent: from, prefix: line }) ==> a@
            == to_create_unique(from@, line@),
        a == Action::<FilePath, String>::RemoveFolder(from) ==> a@ == to_remove_folder(from@),
        a == Action::<FilePath, String>::List(from) ==> a@ == to_list(from@),
        a == (Action::<FilePath, String>::AppendLine { file: from, line }) ==> a@ == to_append(
            from@,
            line@,
        ),
        a == (Action::<FilePath, String>::Convert { source: from, staged: to, format }) ==> a@
            == to_convert(from@, to@, format),
        a == Action::<FilePath, String>::RemoveFile(from) ==> (a@ matches Action::RemoveFile(p) && p
            == from@),
        a is Continue ==> a@ is Continue,
{
}

/// An answer of the disk says what came of a request.
pub proof fn answers_say_what_came_of_it(
    o: Outcome<String>,
    cancelled: bool,
    kind: Kind,
    fault: Fault,
    text: String,
)
    ensures
        o is Done ==> o@ is Done,
        o is Cancelled ==> o@ is Cancelled,
        o == (Outcome::<String>::Converted { cancelled }) ==> o@ == (Outcome::<
            Seq<char>,
        >::Converted { cancelled }),
        o == Outcome::<String>::Exists(cancelled) ==> o@ == Outcome::<Seq<char>>::Exists(cancelled),
        o == Outcome::<String>::Found(kind) ==> o@ == Outcome::<Seq<char>>::Found(kind),
        o == Outcome::<String>::Created(text) ==> o@ == Outcome::<Seq<char>>::Created(text@),
        o == Outcome::<String>::Failed(fault, text) ==> o@ == Outcome::<Seq<char>>::Failed(
            fault,
            text@,
        ),
{
}

/// A failure says whether the user cancelled, and why else it came.
pub proof fn failures_say_why(f: Failure<String>)
    ensures
        f@.cancelled == f.cancelled,
        f@.text == f.text@,
{
}

/// An entry of a listing says its name and its marks.
pub proof fn entries_say_their_names(e: DirEntry)
    ensures
        e@.name == e.name@,
        e@.attributes == e.attributes,
{
}

/// A task of a conversion says what is to be done, and with what.
pub proof fn tasks_say_what_is_to_be_done(
    t: Task<FilePath>,
    p: FilePath,
    q: FilePath,
    from_rate: u32,
    to_rate: u32,
    channels: usize,
    target: Target,
)
    ensures
        t is Nothing ==> t@ is Nothing,
        t == Task::Decode(p) ==> t@ == Task::<PathView>::Decode(p@),
        t == (Task::<FilePath>::Resample { from_rate, to_rate, channels }) ==> t@ == (Task::<
            PathView,
        >::Resample { from_rate, to_rate, channels }),
        t == Task::CreateFolders(p) ==> t@ == Task::<PathView>::CreateFolders(p@),
        t == Task::CreateFile(p) ==> t@ == Task::<PathView>::CreateFile(p@),
        t == (Task::Write { file: p, channels, target }) ==> t@ == (Task::<PathView>::Write {
            file: p@,
            channels,
            target,
        }),
        t == (Task::Rename { from: p, to: q }) ==> t@ == (Task::<PathView>::Rename {
            from: p@,
            to: q@,
        }),
        t == Task::RemoveFile(p) ==> t@ == Task::<PathView>::RemoveFile(p@),
{
}

/// A conversion says what it was given, and how it has fared.
pub proof fn conversions_say_what_they_were_given(c: Conversion)
    ensures
        c@.input == c.input@ && c@.output == c.output@ && c@.partial == c.partial@,
        c@.format == c.format && c@.source == c.source && c@.stage == c.stage,
        c@.in_place == c.in_place && c@.fold_case == c.fold_case,
        c@.separator == c.separator@,
        c@.failure is Some <==> c.failure is Some,
        c.failure matches Some(failure) ==> c@.failure == Some(failure@),
{
}

/// A packet says what was read or decoded.
pub proof fn packets_say_what_was_read(p: Packet<String>, track: u32, samples: usize, text: String)
    ensures
        p == (Packet::<String>::Read { track }) ==> p@ == (Packet::<Seq<char>>::Read { track }),
        p == (Packet::<String>::Decoded { samples }) ==> p@ == (Packet::<Seq<char>>::Decoded {
            samples,
        }),
        p == Packet::<String>::Failed(text) ==> p@ == Packet::<Seq<char>>::Failed(text@),
        p is End ==> p@ is End,
        p is Reset ==> p@ is Reset,
        p is Damaged ==> p@ is Damaged,
        p is Cancelled ==> p@ is Cancelled,
{
}

/// A decoding says which track it is of, and how it has fared.
pub proof fn decodings_say_how_they_fare(d: Decoding)
    ensures
        d@.track == d.track && d@.stage == d.stage && d@.heard == d.heard,
        d@.failure is Some <==> d.failure is Some,
        d.failure matches Some(failure) ==> d@.failure == Some(failure@),
{
}

/// What a job asks for says what is to be done, and with which files.
pub proof fn jobs_say_what_they_ask_for(
    a: WorkAction<FilePath>,
    p: FilePath,
    q: FilePath,
    format: OutputFormat,
)
    ensures
        a == WorkAction::ListFolder(p) ==> a@ == WorkAction::<PathView>::ListFolder(p@),
        a == WorkAction::ReadTrack(p) ==> a@ == WorkAction::<PathView>::ReadTrack(p@),
        a == WorkAction::Open(p) ==> a@ == WorkAction::<PathView>::Open(p@),
        a == WorkAction::Defer(p) ==> a@ == WorkAction::<PathView>::Defer(p@),
        a == (WorkAction::Convert { source: p, destination: q, format }) ==> a@ == (WorkAction::<
            PathView,
        >::Convert { source: p@, destination: q@, format }),
        a is Continue <==> a@ is Continue,
        a is NextEntry <==> a@ is NextEntry,
        a is Arrange <==> a@ is Arrange,
        a is Claim <==> a@ is Claim,
        a is Rollback <==> a@ is Rollback,
        a is Keep <==> a@ is Keep,
        a is Commit <==> a@ is Commit,
{
}

/// What a job hears says what came of it.
pub proof fn events_say_what_came_of_it(
    e: WorkEvent<String>,
    n: u32,
    granted: bool,
    text: String,
)
    ensures
        e == WorkEvent::<String>::Track(n) ==> e@ == WorkEvent::<Seq<char>>::Track(n),
        e == WorkEvent::<String>::Granted(granted) ==> e@ == WorkEvent::<Seq<char>>::Granted(
            granted,
        ),
        e == WorkEvent::Failed(text) ==> e@ == WorkEvent::<Seq<char>>::Failed(text@),
        e == (WorkEvent::CommitFailed { committed: granted, text }) ==> e@ == (WorkEvent::<
            Seq<char>,
        >::CommitFailed { committed: granted, text: text@ }),
        e is Ready ==> e@ is Ready,
        e is End ==> e@ is End,
        e is NoTrack ==> e@ is NoTrack,
        e is Cancelled ==> e@ is Cancelled,
        e is Panicked ==> e@ is Panicked,
{
}

/// A message says what the user is told.
pub proof fn messages_say_what_the_user_is_told(
    m: Msg<String>,
    n: usize,
    k: usize,
    text: String,
)
    ensures
        m == Msg::<String>::Total(n) ==> m@ == Msg::<Seq<char>>::Total(n),
        m == (Msg::Progress { done: n, file: text }) ==> m@ == (Msg::<Seq<char>>::Progress {
            done: n,
            file: text@,
        }),
        m == Msg::Log(text) ==> m@ == Msg::<Seq<char>>::Log(text@),
        m == (Msg::<String>::Finished { ok: n, failed: k }) ==> m@ == (Msg::<Seq<char>>::Finished {
            ok: n,
            failed: k,
        }),
        m == (Msg::<String>::Cancelled { cleanup_error: None }) ==> m@ == (Msg::<
            Seq<char>,
        >::Cancelled { cleanup_error: None }),
        m == (Msg::Cancelled { cleanup_error: Some(text) }) ==> m@ == (Msg::<
            Seq<char>,
        >::Cancelled { cleanup_error: Some(text@) }),
        m == Msg::OrderError(text) ==> m@ == Msg::<Seq<char>>::OrderError(text@),
        m == Msg::NameWarning(text) ==> m@ == Msg::<Seq<char>>::NameWarning(text@),
        m == Msg::OutputWarning(text) ==> m@ == Msg::<Seq<char>>::OutputWarning(text@),
{
}

/// The settings of a job say what the user asked for.
pub proof fn settings_say_what_was_asked_for(s: JobSettings)
    ensures
        s@.input == s.input@ && s@.output == s.output@ && s@.separator == s.separator@,
        s@.selected is Some <==> s.selected is Some,
        s.selected matches Some(p) ==> s@.selected == Some(p@),
        s@.format == s.format && s@.in_place == s.in_place,
        s@.remove_artist == s.remove_artist && s@.use_track_number == s.use_track_number,
        s@.arrange == s.arrange,
{
}

/// The window says what it shows.
pub proof fn windows_say_what_they_show(app: App, job: Job, i: int)
    ensures
        app.input_dir is None <==> app@.input_dir is None,
        app.input_dir matches Some(p) ==> app@.input_dir == Some(p@),
        app.output_dir is None <==> app@.output_dir is None,
        app.output_dir matches Some(p) ==> app@.output_dir == Some(p@),
        app@.format == app.format && app@.same_as_input == app.same_as_input,
        app@.remove_artist == app.remove_artist,
        app@.disable_track_prefix == app.disable_track_prefix,
        app@.disable_ordering == app.disable_ordering,
        app.filename_warning matches Some(text) ==> app@.filename_warning == Some(text@),
        app.output_warning matches Some(text) ==> app@.output_warning == Some(text@),
        app.summary matches Some(text) ==> app@.summary == Some(text@),
        app.filename_warning is None <==> app@.filename_warning is None,
        app.output_warning is None <==> app@.output_warning is None,
        app.summary is None <==> app@.summary is None,
        app@.log.len() == app.log@.len(),
        0 <= i < app.log@.len() ==> app@.log[i] == app.log@[i]@,
        app@.close_when_finished == app.close_when_finished,
        app@.drop_target == app.drop_target,
        app.job is None <==> app@.job is None,
        app.job == Some(job) ==> app@.job == Some(job@),
        job@.total == job.total && job@.done == job.done && job@.current == job.current@,
        job.order_error is None <==> job@.order_error is None,
        job.order_error matches Some(text) ==> job@.order_error == Some(text@),
{
}

} // verus!
