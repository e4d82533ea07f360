//! A backup run, step by step: what to do next, and what comes of it. Whoever drives
//! the run does the reading and writing; the decisions are here.

use vstd::prelude::*;
use vstd::string::*;
use vstd::utf8::*;

use crate::backup::crypto::Recipient;
use crate::backup::{
    archive_name, archive_paths, archives_in, backup_dir_error_text, dir_refused, guard_backup_dir,
    is_pruning, law_pruning_is_exact, partial_name, prune, BackupDirError, BackupEvent,
    BackupReport, DirItem,
};
use crate::path::{components, joined, overlap, path_bytes, path_order, Order, PathBuf};
use crate::resolve::Place;

verus! {

/// What a run is waiting for.
#[derive(Debug, Clone, Copy, PartialEq, Eq, Structural)]
pub enum JobState {
    /// To be started.
    Ready,
    /// The recipient.
    Fetching,
    /// The size of the source, on a dry run.
    Measuring,
    /// The backup folder.
    MakingDir,
    /// The archive, under its hidden name.
    Archiving,
    /// The removal of an archive that could not be completed.
    Clearing,
    /// The archive, under its name.
    Renaming,
    /// The size of the archive.
    Sizing,
    /// What is in the backup folder.
    Listing,
    /// The removal of an old archive.
    Removing,
    /// Nothing: the run is over.
    Over,
}

/// What happened outside.
#[derive(Debug)]
pub enum JobEvent {
    /// The run starts.
    Begin,
    /// There is a recipient; `stamp` is the time.
    Key { recipient: Recipient, stamp: String },
    /// The source has so many files and bytes.
    Measured { files: usize, bytes: u64 },
    /// The backup folder exists.
    DirMade,
    /// The archive is written, with so many files in it.
    Written { files: usize },
    /// The incomplete archive is gone, as far as that was possible.
    Cleared,
    /// The archive has its name.
    Renamed,
    /// The archive has so many bytes, where that is known.
    Sized(Option<u64>),
    /// This is in the backup folder.
    Listed(Vec<DirItem>),
    /// The old archive is gone.
    Removed,
    /// What was asked for failed.
    Failed(String),
}

/// What to do next.
#[derive(Debug)]
pub enum JobStep {
    /// Ask for the recipient.
    FetchKey,
    /// Count the files and bytes of the source.
    Measure,
    /// Create the backup folder.
    MakeDir(PathBuf),
    /// Archive the source, encrypted, into this file.
    WriteArchive(PathBuf),
    /// Remove this incomplete archive.
    Clear(PathBuf),
    /// Give the archive its name.
    Rename { from: PathBuf, to: PathBuf },
    /// Find out the size of the archive.
    Size(PathBuf),
    /// List the backup folder.
    List(PathBuf),
    /// Remove this old archive.
    Remove(PathBuf),
    /// Done.
    Finish(BackupReport),
    /// Given up.
    Fail(String),
}

/// What to report, if anything, and what to do next.
#[derive(Debug)]
pub struct Turn {
    pub event: Option<BackupEvent>,
    pub step: JobStep,
}

/// A backup run.
#[derive(Debug)]
pub struct BackupJob {
    pub source: Place,
    pub backup_dir: Place,
    pub retention: usize,
    pub dry_run: bool,
    pub state: JobState,
    pub recipient: Option<Recipient>,
    pub archive: PathBuf,
    pub partial: PathBuf,
    pub files: usize,
    pub bytes: u64,
    pub removals: Vec<PathBuf>,
    pub pruned: usize,
    pub failure: String,
}

/// Whether a state can be followed by this event.
pub open spec fn awaits(state: JobState, event: JobEvent) -> bool {
    match event {
        JobEvent::Begin => state == JobState::Ready,
        JobEvent::Key { .. } => state == JobState::Fetching,
        JobEvent::Measured { .. } => state == JobState::Measuring,
        JobEvent::DirMade => state == JobState::MakingDir,
        JobEvent::Written { .. } => state == JobState::Archiving,
        JobEvent::Cleared => state == JobState::Clearing,
        JobEvent::Renamed => state == JobState::Renaming,
        JobEvent::Sized(_) => state == JobState::Sizing,
        JobEvent::Listed(_) => state == JobState::Listing,
        JobEvent::Removed => state == JobState::Removing,
        JobEvent::Failed(_) => state != JobState::Ready && state != JobState::Clearing && state
            != JobState::Over,
    }
}

/// Whether a step ends the run with a report of what it did.
pub open spec fn is_finish(step: JobStep, job: BackupJob) -> bool {
    step matches JobStep::Finish(r) && {
        &&& r.archive_path@ == job.archive@
        &&& r.files == job.files
        &&& r.bytes == job.bytes
        &&& r.pruned == job.pruned
        &&& r.dry_run == job.dry_run
    }
}

/// Whether a run goes on to remove the next old archive, or ends where none is left.
pub open spec fn prunes(job: BackupJob, turn: Turn) -> bool {
    if job.pruned < job.removals@.len() {
        &&& job.state == JobState::Removing
        &&& turn.step matches JobStep::Remove(p) && p@ == job.removals@[job.pruned as int]@
    } else {
        &&& job.state == JobState::Over
        &&& is_finish(turn.step, job)
    }
}

/// What an event makes of a run, and what to do next.
pub open spec fn follows(before: BackupJob, event: JobEvent, after: BackupJob, turn: Turn) -> bool {
    match event {
        JobEvent::Begin => {
            &&& turn.event == if after.state == JobState::Fetching {
                Some(BackupEvent::FetchingKey)
            } else {
                None
            }
            &&& after == (BackupJob { state: after.state, ..before })
            &&& if overlap(before.source.resolved@, before.backup_dir.resolved@) {
                &&& after.state == JobState::Over
                &&& exists|e: BackupDirError| #[trigger]
                    dir_refused(e, before.source.resolved@, before.backup_dir.resolved@) && (
                    turn.step matches JobStep::Fail(m) && m@ == backup_dir_error_text(e))
            } else {
                &&& after.state == JobState::Fetching
                &&& turn.step is FetchKey
            }
        },
        JobEvent::Key { recipient, stamp } => {
            &&& turn.event is None
            &&& after == (BackupJob {
                recipient: Some(recipient),
                archive: after.archive,
                partial: after.partial,
                state: after.state,
                ..before
            })
            &&& after.archive@ == joined(
                before.backup_dir.path@,
                encode_utf8(archive_name(stamp@)),
            )
            &&& after.partial@ == joined(
                before.backup_dir.path@,
                encode_utf8(partial_name(stamp@)),
            )
            &&& if before.dry_run {
                after.state == JobState::Measuring && turn.step is Measure
            } else {
                &&& after.state == JobState::MakingDir
                &&& turn.step matches JobStep::MakeDir(d) && d@ == before.backup_dir.path@
            }
        },
        JobEvent::Measured { files, bytes } => {
            &&& turn.event is None
            &&& after == (BackupJob { files, bytes, state: JobState::Over, ..before })
            &&& is_finish(turn.step, after)
        },
        JobEvent::DirMade => {
            &&& turn.event == Some(BackupEvent::Archiving)
            &&& after == (BackupJob { state: JobState::Archiving, ..before })
            &&& turn.step matches JobStep::WriteArchive(p) && p@ == before.partial@
        },
        JobEvent::Written { files } => {
            &&& turn.event is None
            &&& after == (BackupJob { files, state: JobState::Renaming, ..before })
            &&& turn.step matches JobStep::Rename { from, to } && from@ == before.partial@ && to@
                == before.archive@
        },
        JobEvent::Cleared => {
            &&& turn.event is None
            &&& after == (BackupJob { state: JobState::Over, ..before })
            &&& turn.step matches JobStep::Fail(m) && m@ == before.failure@
        },
        JobEvent::Renamed => {
            &&& turn.event is None
            &&& after == (BackupJob { state: JobState::Sizing, ..before })
            &&& turn.step matches JobStep::Size(p) && p@ == before.archive@
        },
        JobEvent::Sized(size) => {
            &&& turn.event == Some(BackupEvent::Pruning)
            &&& after == (BackupJob {
                bytes: match size {
                    Some(n) => n,
                    None => 0,
                },
                state: after.state,
                ..before
            })
            &&& if before.retention == 0 {
                after.state == JobState::Over && is_finish(turn.step, after)
            } else {
                &&& after.state == JobState::Listing
                &&& turn.step matches JobStep::List(d) && d@ == before.backup_dir.path@
            }
        },
        JobEvent::Listed(items) => {
            &&& turn.event is None
            &&& after == (BackupJob { removals: after.removals, pruned: 0, state: after.state, ..before })
            &&& is_pruning(path_bytes(after.removals@), archives_in(items@), before.retention)
            &&& prunes(after, turn)
        },
        JobEvent::Removed => {
            &&& turn.event is None
            &&& after == (BackupJob {
                pruned: (before.pruned + 1) as usize,
                state: after.state,
                ..before
            })
            &&& prunes(after, turn)
        },
        JobEvent::Failed(why) => {
            &&& turn.event is None
            &&& if before.state == JobState::Archiving {
                &&& after == (BackupJob { failure: why, state: JobState::Clearing, ..before })
                &&& turn.step matches JobStep::Clear(p) && p@ == before.partial@
            } else {
                &&& after == (BackupJob { state: JobState::Over, ..before })
                &&& turn.step == JobStep::Fail(why)
            }
        },
    }
}

impl BackupJob {
    /// What holds of every run: past its start the backup folder and the source do not
    /// overlap, a dry run is never about to write, and removals are counted in turn.
    pub open spec fn wf(&self) -> bool {
        &&& self.state != JobState::Ready && self.state != JobState::Over ==> !overlap(
            self.source.resolved@,
            self.backup_dir.resolved@,
        )
        &&& self.dry_run ==> {
            ||| self.state == JobState::Ready
            ||| self.state == JobState::Fetching
            ||| self.state == JobState::Measuring
            ||| self.state == JobState::Over
        }
        &&& self.state == JobState::Removing ==> self.pruned < self.removals@.len()
    }

    /// A run that backs up `source` into `backup_dir`, keeping the `retention` newest
    /// archives.
    pub fn new(source: Place, backup_dir: Place, retention: usize, dry_run: bool) -> (res: BackupJob)
        ensures
            res.wf(),
            res.source == source,
            res.backup_dir == backup_dir,
            res.retention == retention,
            res.dry_run == dry_run,
            res.state == JobState::Ready,
            res.recipient is None,
            res.files == 0,
            res.bytes == 0,
            res.removals@.len() == 0,
            res.pruned == 0,
    {
        BackupJob {
            source,
            backup_dir,
            retention,
            dry_run,
            state: JobState::Ready,
            recipient: None,
            archive: PathBuf::from_bytes(Vec::new()),
            partial: PathBuf::from_bytes(Vec::new()),
            files: 0,
            bytes: 0,
            removals: Vec::new(),
            pruned: 0,
            failure: String::new(),
        }
    }

    fn report(&self) -> (res: JobStep)
        ensures
            is_finish(res, *self),
    {
        JobStep::Finish(
            BackupReport {
                archive_path: self.archive.clone(),
                files: self.files,
                bytes: self.bytes,
                pruned: self.pruned,
                dry_run: self.dry_run,
            },
        )
    }

    fn next_removal(&mut self) -> (res: Turn)
        requires
            old(self).pruned <= old(self).removals@.len(),
        ensures
            *final(self) == (BackupJob { state: final(self).state, ..*old(self) }),
            res.event is None,
            prunes(*final(self), res),
    {
        if self.pruned < self.removals.len() {
            self.state = JobState::Removing;
            Turn { event: None, step: JobStep::Remove(self.removals[self.pruned].clone()) }
        } else {
            self.state = JobState::Over;
            Turn { event: None, step: self.report() }
        }
    }

    fn start(&mut self) -> (res: Turn)
        requires
            old(self).state == JobState::Ready,
        ensures
            follows(*old(self), JobEvent::Begin, *final(self), res),
    {
        match guard_backup_dir(&self.source, &self.backup_dir) {
            Err(e) => {
                self.state = JobState::Over;
                let m = e.message();
                proof {
                    assert(dir_refused(e, self.source.resolved@, self.backup_dir.resolved@));
                    crate::path::lemma_same_overlaps(
                        self.source.resolved@,
                        self.backup_dir.resolved@,
                    );
                }
                Turn { event: None, step: JobStep::Fail(m) }
            },
            Ok(()) => {
                self.state = JobState::Fetching;
                Turn { event: Some(BackupEvent::FetchingKey), step: JobStep::FetchKey }
            },
        }
    }

    /// Take in what happened, and say what to do next.
    pub fn advance(&mut self, event: JobEvent) -> (res: Turn)
        requires
            old(self).wf(),
            awaits(old(self).state, event),
        ensures
            final(self).wf(),
            follows(*old(self), event, *final(self), res),
    {
        match event {
            JobEvent::Begin => self.start(),
            JobEvent::Key { recipient, stamp } => {
                let (archive, partial) = archive_paths(&self.backup_dir.path, stamp.as_str());
                self.recipient = Some(recipient);
                self.archive = archive;
                self.partial = partial;
                if self.dry_run {
                    self.state = JobState::Measuring;
                    Turn { event: None, step: JobStep::Measure }
                } else {
                    self.state = JobState::MakingDir;
                    Turn { event: None, step: JobStep::MakeDir(self.backup_dir.path.clone()) }
                }
            },
            JobEvent::Measured { files, bytes } => {
                self.files = files;
                self.bytes = bytes;
                self.state = JobState::Over;
                Turn { event: None, step: self.report() }
            },
            JobEvent::DirMade => {
                self.state = JobState::Archiving;
                Turn {
                    event: Some(BackupEvent::Archiving),
                    step: JobStep::WriteArchive(self.partial.clone()),
                }
            },
            JobEvent::Written { files } => {
                self.files = files;
                self.state = JobState::Renaming;
                Turn {
                    event: None,
                    step: JobStep::Rename { from: self.partial.clone(), to: self.archive.clone() },
                }
            },
            JobEvent::Cleared => {
                self.state = JobState::Over;
                Turn { event: None, step: JobStep::Fail(self.failure.clone()) }
            },
            JobEvent::Renamed => {
                self.state = JobState::Sizing;
                Turn { event: None, step: JobStep::Size(self.archive.clone()) }
            },
            JobEvent::Sized(size) => {
                self.bytes = match size {
                    Some(n) => n,
                    None => 0,
                };
                if self.retention == 0 {
                    self.state = JobState::Over;
                    Turn { event: Some(BackupEvent::Pruning), step: self.report() }
                } else {
                    self.state = JobState::Listing;
                    Turn {
                        event: Some(BackupEvent::Pruning),
                        step: JobStep::List(self.backup_dir.path.clone()),
                    }
                }
            },
            JobEvent::Listed(items) => {
                self.removals = prune(&items, self.retention);
                self.pruned = 0;
                self.next_removal()
            },
            JobEvent::Removed => {
                let count: usize = self.removals.len();
                assert(self.pruned < count);
                self.pruned += 1;
                self.next_removal()
            },
            JobEvent::Failed(why) => {
                if self.state == JobState::Archiving {
                    self.failure = why;
                    self.state = JobState::Clearing;
                    Turn { event: None, step: JobStep::Clear(self.partial.clone()) }
                } else {
                    self.state = JobState::Over;
                    Turn { event: None, step: JobStep::Fail(why) }
                }
            },
        }
    }
}

// --- Laws ------------------------------------------------------------------

/// Whether a step changes something in the file system.
pub open spec fn is_writing(step: JobStep) -> bool {
    ||| step is MakeDir
    ||| step is WriteArchive
    ||| step is Clear
    ||| step is Rename
    ||| step is Remove
}

/// No step of a dry run changes anything.
pub proof fn law_dry_runs_write_nothing(
    before: BackupJob,
    event: JobEvent,
    after: BackupJob,
    turn: Turn,
)
    requires
        before.wf(),
        awaits(before.state, event),
        follows(before, event, after, turn),
        before.dry_run,
    ensures
        !is_writing(turn.step),
        after.dry_run,
{
}

/// No step changes anything unless the backup folder and the source are apart.
pub proof fn law_nothing_is_written_over_the_source(
    before: BackupJob,
    event: JobEvent,
    after: BackupJob,
    turn: Turn,
)
    requires
        before.wf(),
        awaits(before.state, event),
        follows(before, event, after, turn),
        is_writing(turn.step),
    ensures
        !overlap(before.source.resolved@, before.backup_dir.resolved@),
{
}

/// An archive gets its name only once it is written, and one that could not be written
/// is removed before the run is given up.
pub proof fn law_failed_archives_are_cleared(
    before: BackupJob,
    event: JobEvent,
    after: BackupJob,
    turn: Turn,
)
    requires
        before.wf(),
        awaits(before.state, event),
        follows(before, event, after, turn),
    ensures
        turn.step is Rename ==> event is Written,
        before.state == JobState::Archiving && event is Failed ==> turn.step is Clear,
        turn.step matches JobStep::Clear(p) ==> p@ == before.partial@,
{
}

/// A backup in which nothing fails fetches the key, makes the folder, writes the archive
/// under a hidden name, only then gives it its name, and looks what else is there. The
/// archive is named after the time, and the report, where nothing is pruned, says what
/// was made.
pub proof fn law_backups_are_made(
    ready: BackupJob,
    fetching: BackupJob,
    making: BackupJob,
    archiving: BackupJob,
    renaming: BackupJob,
    sizing: BackupJob,
    listing: BackupJob,
    recipient: Recipient,
    stamp: String,
    files: usize,
    size: Option<u64>,
    turns: Seq<Turn>,
)
    requires
        ready.state == JobState::Ready,
        !ready.dry_run,
        ready.retention > 0,
        turns.len() == 6,
        !components(ready.source.resolved@).is_prefix_of(
            components(ready.backup_dir.resolved@),
        ),
        !components(ready.backup_dir.resolved@).is_prefix_of(
            components(ready.source.resolved@),
        ),
        follows(ready, JobEvent::Begin, fetching, turns[0]),
        follows(fetching, JobEvent::Key { recipient, stamp }, making, turns[1]),
        follows(making, JobEvent::DirMade, archiving, turns[2]),
        follows(archiving, JobEvent::Written { files }, renaming, turns[3]),
        follows(renaming, JobEvent::Renamed, sizing, turns[4]),
        follows(sizing, JobEvent::Sized(size), listing, turns[5]),
    ensures
        ({
            let dir = ready.backup_dir.path@;
            let archive = joined(dir, encode_utf8(stamp@ + ".tar.gz.age"@));
            let partial = joined(dir, encode_utf8("."@ + stamp@ + ".tar.gz.age"@ + ".partial"@));
            &&& turns[0].step is FetchKey
            &&& turns[1].step matches JobStep::MakeDir(p) && p@ == dir
            &&& turns[2].step matches JobStep::WriteArchive(p) && p@ == partial
            &&& turns[3].step matches JobStep::Rename { from, to } && from@ == partial && to@
                == archive
            &&& turns[4].step matches JobStep::Size(p) && p@ == archive
            &&& turns[5].step matches JobStep::List(p) && p@ == dir
            &&& turns[0].event == Some(BackupEvent::FetchingKey)
            &&& turns[2].event == Some(BackupEvent::Archiving)
            &&& turns[5].event == Some(BackupEvent::Pruning)
            &&& listing.recipient == Some(recipient)
            &&& listing.archive@ == archive
            &&& listing.files == files
            &&& size matches Some(n) ==> listing.bytes == n
            &&& size is None ==> listing.bytes == 0
            &&& listing.state == JobState::Listing
            &&& listing.retention == ready.retention
            &&& !listing.dry_run
        }),
{
    let dir = ready.backup_dir.path@;
    assert(partial_name(stamp@) =~= "."@ + stamp@ + ".tar.gz.age"@ + ".partial"@);
}

/// Old archives are removed one after the other, each once, and then the run ends with a
/// report of the archive, its files and bytes, and how many were removed.
pub proof fn law_removals_go_one_by_one(
    before: BackupJob,
    event: JobEvent,
    after: BackupJob,
    turn: Turn,
)
    requires
        before.wf(),
        awaits(before.state, event),
        follows(before, event, after, turn),
        event is Listed || event is Removed,
        before.pruned < usize::MAX,
    ensures
        event is Listed ==> after.pruned == 0,
        event is Removed ==> after.pruned == before.pruned + 1 && after.removals == before.removals,
        after.archive == before.archive && after.files == before.files && after.bytes
            == before.bytes && after.dry_run == before.dry_run,
        after.pruned < after.removals@.len() ==> after.state == JobState::Removing && (
        turn.step matches JobStep::Remove(p) && p@ == after.removals@[after.pruned as int]@),
        after.pruned >= after.removals@.len() ==> after.state == JobState::Over && (
        turn.step matches JobStep::Finish(r) && {
            &&& r.archive_path@ == before.archive@
            &&& r.files == before.files
            &&& r.bytes == before.bytes
            &&& r.pruned == after.pruned
            &&& r.dry_run == before.dry_run
        }),
{
}

/// What is removed once a backup is made are the oldest archives of the backup folder, as
/// many as there are beyond the retention.
pub proof fn law_backups_keep_the_newest(
    before: BackupJob,
    items: Vec<DirItem>,
    after: BackupJob,
    turn: Turn,
)
    requires
        follows(before, JobEvent::Listed(items), after, turn),
        before.retention > 0,
    ensures
        ({
            let archives = archives_in(items@);
            let removed = path_bytes(after.removals@);
            let left = archives.to_multiset().sub(removed.to_multiset());
            &&& removed.to_multiset().subset_of(archives.to_multiset())
            &&& left.len() == if archives.len() <= before.retention {
                archives.len()
            } else {
                before.retention as nat
            }
            &&& forall|gone: Seq<u8>, kept: Seq<u8>|
                #![trigger removed.contains(gone), left.contains(kept)]
                removed.contains(gone) && left.contains(kept) ==> path_order(gone, kept)
                    != Order::Greater
        }),
{
    law_pruning_is_exact(
        path_bytes(after.removals@),
        archives_in(items@),
        before.retention,
    );
}

/// With a retention of 0 a backup ends as soon as it is made, and nothing is removed.
pub proof fn law_zero_retention_keeps_all(
    before: BackupJob,
    size: Option<u64>,
    after: BackupJob,
    turn: Turn,
)
    requires
        follows(before, JobEvent::Sized(size), after, turn),
        before.retention == 0,
    ensures
        after.state == JobState::Over,
        turn.step matches JobStep::Finish(r) && {
            &&& r.archive_path@ == before.archive@
            &&& r.files == before.files
            &&& r.bytes == (match size {
                Some(n) => n,
                None => 0,
            })
            &&& r.pruned == before.pruned
            &&& !before.dry_run ==> !r.dry_run
        },
{
}

/// A failure ends the run with its reason: at once, or, while the archive is being
/// written, after what there is of it has been removed.
pub proof fn law_failures_end_the_run(
    before: BackupJob,
    why: String,
    mid: BackupJob,
    first: Turn,
    after: BackupJob,
    second: Turn,
)
    requires
        awaits(before.state, JobEvent::Failed(why)),
        follows(before, JobEvent::Failed(why), mid, first),
    ensures
        before.state != JobState::Archiving ==> mid.state == JobState::Over && first.step
            == JobStep::Fail(why),
        before.state == JobState::Archiving ==> mid.state == JobState::Clearing && (
        first.step matches JobStep::Clear(p) && p@ == before.partial@),
        before.state == JobState::Archiving && follows(mid, JobEvent::Cleared, after, second)
            ==> after.state == JobState::Over && (second.step matches JobStep::Fail(m) && m@
            == why@),
{
}

/// A dry run fetches the key, measures the source and reports what would be made, where,
/// and that nothing was.
pub proof fn law_dry_runs_report(
    ready: BackupJob,
    fetching: BackupJob,
    measuring: BackupJob,
    over: BackupJob,
    recipient: Recipient,
    stamp: String,
    files: usize,
    bytes: u64,
    turns: Seq<Turn>,
)
    requires
        ready.state == JobState::Ready,
        ready.dry_run,
        ready.pruned == 0,
        turns.len() == 3,
        !overlap(ready.source.resolved@, ready.backup_dir.resolved@),
        follows(ready, JobEvent::Begin, fetching, turns[0]),
        follows(fetching, JobEvent::Key { recipient, stamp }, measuring, turns[1]),
        follows(measuring, JobEvent::Measured { files, bytes }, over, turns[2]),
    ensures
        turns[0].step is FetchKey,
        turns[1].step is Measure,
        turns[2].step matches JobStep::Finish(r) && {
            &&& r.dry_run
            &&& r.files == files
            &&& r.bytes == bytes
            &&& r.pruned == 0
            &&& r.archive_path@ == joined(
                ready.backup_dir.path@,
                encode_utf8(stamp@ + ".tar.gz.age"@),
            )
        },
        over.state == JobState::Over,
{
}

/// A run whose backup folder and source overlap is refused before anything is asked for.
pub proof fn law_overlapping_runs_are_refused(ready: BackupJob, after: BackupJob, turn: Turn)
    requires
        ready.state == JobState::Ready,
        follows(ready, JobEvent::Begin, after, turn),
    ensures
        turn.step is Fail <==> (components(ready.source.resolved@).is_prefix_of(
            components(ready.backup_dir.resolved@),
        ) || components(ready.backup_dir.resolved@).is_prefix_of(
            components(ready.source.resolved@),
        )),
        turn.step is Fail ==> after.state == JobState::Over && turn.event is None,
        !(turn.step is Fail) ==> turn.step is FetchKey,
{
}

} // verus!
