//! The upload worker: from time to time it moves the files of the
//! database folder that are large enough into a staging folder and
//! uploads what is there.

use uuid::Uuid;
use vstd::prelude::*;
use vstd::string::StringExecFns;

verus! {

/// A file of the database folder as the upload worker sees it: its name,
/// and its size in bytes where that could be found out.
#[derive(Debug, PartialEq, Eq)]
pub struct DirFile {
    pub name: String,
    pub size: Option<u64>,
}

/// A file is staged when its size is known and reaches the threshold;
/// without a threshold every file of known size is staged.
pub open spec fn is_staged(file: DirFile, min_file_size_bytes: Option<u64>) -> bool {
    match file.size {
        None => false,
        Some(size) => match min_file_size_bytes {
            None => true,
            Some(min) => size >= min,
        },
    }
}

/// The places in `files` of the files that are staged, in ascending order.
pub open spec fn staged(files: Seq<DirFile>, min_file_size_bytes: Option<u64>) -> Seq<usize>
    decreases files.len(),
{
    if files.len() == 0 {
        Seq::empty()
    } else {
        let before = staged(files.drop_last(), min_file_size_bytes);
        if is_staged(files.last(), min_file_size_bytes) {
            before.push((files.len() - 1) as usize)
        } else {
            before
        }
    }
}

/// The files to move to the staging folder before an upload: those of at
/// least `min_file_size_bytes` bytes. Gives their places in `files`.
pub fn copy_files(files: &Vec<DirFile>, min_file_size_bytes: Option<u64>) -> (moved: Vec<usize>)
    ensures
        moved@ == staged(files@, min_file_size_bytes),
{
    let mut moved: Vec<usize> = Vec::new();
    let mut i: usize = 0;
    assert(files@.take(0) =~= Seq::<DirFile>::empty());
    while i < files.len()
        invariant
            i <= files@.len(),
            moved@ == staged(files@.take(i as int), min_file_size_bytes),
        decreases files@.len() - i,
    {
        proof {
            assert(files@.take(i + 1).drop_last() =~= files@.take(i as int));
            assert(files@.take(i + 1).last() == files@[i as int]);
        }
        let take = match files[i].size {
            None => false,
            Some(size) => match min_file_size_bytes {
                None => true,
                Some(min) => size >= min,
            },
        };
        if take {
            moved.push(i);
        }
        i += 1;
    }
    assert(files@.take(i as int) =~= files@);
    moved
}

/// The files to move to the staging folder when the server shuts down:
/// all whose size is known, whatever their size.
pub fn run_exit_hook(files: &Vec<DirFile>) -> (moved: Vec<usize>)
    ensures
        moved@ == staged(files@, None),
{
    copy_files(files, None)
}

/// The name under which a file is staged: a fresh identifier, a hyphen,
/// and the file's own name.
pub open spec fn staged_name_of(id: Seq<char>, file_name: Seq<char>) -> Seq<char> {
    id + seq!['-'] + file_name
}

/// The name under which the file `file_name` is staged with the fresh
/// identifier `id`.
pub fn staged_name(id: &str, file_name: &str) -> (name: String)
    ensures
        name@ == staged_name_of(id@, file_name@),
{
    let mut name = id.to_owned();
    name.append("-");
    name.append(file_name);
    proof {
        reveal_strlit("-");
        assert("-"@ =~= seq!['-']);
    }
    name
}

/// The shape of an identifier in hyphenated form: 36 characters, with a
/// hyphen after the eighth and after every fourth from there up to the
/// twenty-third.
pub open spec fn hyphenated(id: Seq<char>) -> bool {
    id.len() == 36 && id[8] == '-' && id[13] == '-' && id[18] == '-' && id[23] == '-'
}

/// `uuid::Uuid::new_v4`, as the text that its `Display` gives: a random
/// identifier, fresh at every call, in hyphenated form. Nothing else is
/// claimed of the text. The call fails only where the operating system
/// hands out no random bytes.
#[verifier::external_body]
fn fresh_id() -> (id: String)
    ensures
        hyphenated(id@),
{
    Uuid::new_v4().to_string()
}

/// A fresh name under which to stage the file `file_name`: an identifier
/// in hyphenated form, a hyphen, and the file's own name.
pub fn fresh_staged_name(file_name: &str) -> (name: String)
    ensures
        exists|id: Seq<char>| hyphenated(id) && name@ == staged_name_of(id, file_name@),
{
    let id = fresh_id();
    staged_name(id.as_str(), file_name)
}

/// What steers the upload of one file.
#[derive(Clone, Copy, Debug, PartialEq, Eq, Structural)]
pub struct UploadSettings {
    /// The upload is to be announced to the catalogue service.
    pub announce: bool,
    /// The local file is to be removed afterwards.
    pub remove: bool,
}

/// A step in the upload of one file.
#[derive(Clone, Copy, Debug, PartialEq, Eq, Structural)]
pub enum UploadStep {
    /// Take the file's path as text.
    Name,
    /// Open the file and prepare the request.
    Prepare,
    /// Send the file to cloud storage.
    Upload,
    /// Announce the upload to the catalogue service.
    Announce,
    /// Remove the local file.
    Remove,
}

/// The step that follows `step`, which ended well or not, or nothing
/// where the upload of the file is over.
///
/// A path that is no text or a file that cannot be prepared ends the
/// upload at once, and the file stays. After the upload proper the file is
/// announced where that is asked for and the upload went well; then,
/// however the upload and the announcement went, the file is removed
/// where that is asked for.
pub open spec fn step_after(settings: UploadSettings, step: UploadStep, ok: bool) -> Option<
    UploadStep,
> {
    match step {
        UploadStep::Name => if ok {
            Some(UploadStep::Prepare)
        } else {
            None
        },
        UploadStep::Prepare => if ok {
            Some(UploadStep::Upload)
        } else {
            None
        },
        UploadStep::Upload => if ok && settings.announce {
            Some(UploadStep::Announce)
        } else if settings.remove {
            Some(UploadStep::Remove)
        } else {
            None
        },
        UploadStep::Announce => if settings.remove {
            Some(UploadStep::Remove)
        } else {
            None
        },
        UploadStep::Remove => None,
    }
}

/// The steps of an upload whose steps end as `ok` says, from the first to
/// the last.
pub open spec fn steps_taken(settings: UploadSettings, ok: spec_fn(UploadStep) -> bool) -> Seq<
    UploadStep,
> {
    if !ok(UploadStep::Name) {
        seq![UploadStep::Name]
    } else if !ok(UploadStep::Prepare) {
        seq![UploadStep::Name, UploadStep::Prepare]
    } else {
        seq![UploadStep::Name, UploadStep::Prepare, UploadStep::Upload] + (if ok(
            UploadStep::Upload,
        ) && settings.announce {
            seq![UploadStep::Announce]
        } else {
            Seq::empty()
        }) + (if settings.remove {
            seq![UploadStep::Remove]
        } else {
            Seq::empty()
        })
    }
}

/// The step that the upload of a file takes next: the first step where
/// nothing was `done` yet, else the step after the one that was done and
/// ended well or not. `None` where the upload is over.
pub open spec fn next_step(settings: UploadSettings, done: Option<(UploadStep, bool)>) -> Option<
    UploadStep,
> {
    match done {
        None => Some(UploadStep::Name),
        Some((step, ok)) => step_after(settings, step, ok),
    }
}

/// Steers the upload of one file. The caller takes the step that is
/// returned and calls again with that step and how it ended, until
/// nothing is returned.
pub fn upload_file(settings: &UploadSettings, done: Option<(UploadStep, bool)>) -> (next: Option<
    UploadStep,
>)
    ensures
        next == next_step(*settings, done),
{
    match done {
        None => Some(UploadStep::Name),
        Some((step, ok)) => match step {
            UploadStep::Name | UploadStep::Prepare => if !ok {
                None
            } else if step == UploadStep::Name {
                Some(UploadStep::Prepare)
            } else {
                Some(UploadStep::Upload)
            },
            UploadStep::Upload => if ok && settings.announce {
                Some(UploadStep::Announce)
            } else if settings.remove {
                Some(UploadStep::Remove)
            } else {
                None
            },
            UploadStep::Announce => if settings.remove {
                Some(UploadStep::Remove)
            } else {
                None
            },
            UploadStep::Remove => None,
        },
    }
}

/// Whoever follows `upload_file` from the start takes the steps of
/// `steps_taken`, in that order, and then stops.
pub proof fn lemma_upload_run(settings: UploadSettings, ok: spec_fn(UploadStep) -> bool)
    ensures
        ({
            let run = steps_taken(settings, ok);
            &&& 1 <= run.len() <= 5
            &&& next_step(settings, None) == Some(run[0])
            &&& forall|k: int|
                0 <= k < run.len() - 1 ==> next_step(settings, Some((run[k], ok(run[k]))))
                    == Some(#[trigger] run[k + 1])
            &&& next_step(settings, Some((run.last(), ok(run.last())))) is None
            &&& run.contains(UploadStep::Remove) <==> (settings.remove && ok(UploadStep::Name)
                && ok(UploadStep::Prepare))
        }),
{
    let run = steps_taken(settings, ok);
    if run.contains(UploadStep::Remove) {
        let k = choose|k: int| 0 <= k < run.len() && run[k] == UploadStep::Remove;
    }
    if settings.remove && ok(UploadStep::Name) && ok(UploadStep::Prepare) {
        assert(run[run.len() - 1] == UploadStep::Remove);
    }
}

/// What the upload worker does, one thing after another.
#[derive(Clone, Copy, Debug, PartialEq, Eq, Structural)]
pub enum Step {
    /// Wait for so many seconds.
    Sleep { secs: u64 },
    /// Move the files of at least so many bytes into the staging folder.
    Stage { min_file_size_bytes: u64 },
    /// Upload every file of the staging folder.
    UploadAll,
}

/// How the upload worker is set up.
#[derive(Clone, Copy, Debug, PartialEq, Eq, Structural)]
pub struct Schedule {
    /// Seconds between two rounds.
    pub upload_interval_secs: u64,
    /// Bytes that a file must have to be uploaded between rounds.
    pub min_file_size: u64,
}

/// The step that follows `done`: the worker sleeps, stages, uploads, and
/// sleeps again, for ever. It starts by sleeping.
pub open spec fn step_following(schedule: Schedule, done: Option<Step>) -> Step {
    match done {
        None | Some(Step::UploadAll) => Step::Sleep { secs: schedule.upload_interval_secs },
        Some(Step::Sleep { .. }) => Step::Stage { min_file_size_bytes: schedule.min_file_size },
        Some(Step::Stage { .. }) => Step::UploadAll,
    }
}

/// Steers the upload worker. The caller takes the step that is returned
/// and calls again with that step, without end.
pub fn run(schedule: &Schedule, done: Option<Step>) -> (next: Step)
    ensures
        next == step_following(*schedule, done),
{
    match done {
        None => Step::Sleep { secs: schedule.upload_interval_secs },
        Some(step) => match step {
            Step::Sleep { .. } => Step::Stage { min_file_size_bytes: schedule.min_file_size },
            Step::Stage { .. } => Step::UploadAll,
            Step::UploadAll => Step::Sleep { secs: schedule.upload_interval_secs },
        },
    }
}

} // verus!
