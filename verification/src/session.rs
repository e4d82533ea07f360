//! A run of the program: what to do first, what follows from each screen, what is
//! saved, and what is said.

use vstd::prelude::*;
use vstd::string::*;
use vstd::utf8::*;

use crate::app::RunOptions;
use crate::backup::{BackupEvent, BackupReport};
use crate::cli::Cli;
use crate::engine::Stats;
use crate::path::{path_bytes, same_path, PathBuf};
use crate::store::{
    chars_in, copy_mappings, is_timestamp, links, Config, Mapping, Store, STORE_VERSION,
};
use crate::text::{self, decimal, lossy_text};
use crate::ui::backup::BackupOutcome;
use crate::ui::browser::HomeIntent;
use crate::ui::dashboard::Outcome;
use crate::ui::mappings::MapSession;
use crate::ui::widgets::{bytes_text, human_bytes};

verus! {

/// The state of an interactive run.
#[derive(Debug)]
pub struct Session {
    pub store: Option<Store>,
    /// What the home screen shows of the previous run.
    pub last_run: Option<String>,
    pub opts: RunOptions,
}

/// What a run does first.
#[derive(Debug)]
pub enum First {
    /// Sync at once, without the home screen.
    SyncNow(Config),
    /// Open the home screen.
    Home,
}

/// What has to be saved.
#[derive(Debug, Clone, Copy, PartialEq, Eq, Structural)]
pub enum Saving {
    Nothing,
    /// The store, with folders that were edited.
    Edited,
    /// A store that is new.
    Fresh,
}

/// What follows from the home screen.
#[derive(Debug)]
pub enum Next {
    /// End the run.
    Leave,
    /// Go back to the home screen.
    Home,
    Sync(Config),
    Mappings(Config),
    /// Back up this source.
    Backup(PathBuf),
}

/// Whether two configurations name the same folders.
pub open spec fn same_config(a: Config, b: Config) -> bool {
    &&& same_path(a.source@, b.source@)
    &&& a.destinations@.len() == b.destinations@.len()
    &&& forall|i: int|
        0 <= i < a.destinations@.len() ==> same_path(
            (#[trigger] a.destinations@[i])@,
            b.destinations@[i]@,
        )
}

fn config_unchanged(a: &Config, b: &Config) -> (res: bool)
    ensures
        res == same_config(*a, *b),
{
    if !a.source.same(&b.source) || a.destinations.len() != b.destinations.len() {
        return false;
    }
    for i in 0..a.destinations.len()
        invariant
            a.destinations@.len() == b.destinations@.len(),
            forall|k: int|
                0 <= k < i ==> same_path(
                    (#[trigger] a.destinations@[k])@,
                    b.destinations@[k]@,
                ),
    {
        if !a.destinations[i].same(&b.destinations[i]) {
            return false;
        }
    }
    true
}

/// The step that failed where something could not be saved.
pub open spec fn saving_text(s: Saving) -> Seq<char> {
    match s {
        Saving::Nothing => ""@,
        Saving::Edited => "saving your edited folders"@,
        Saving::Fresh => "writing the store"@,
    }
}

impl Saving {
    /// The step that failed where something could not be saved.
    pub fn context(self) -> (res: &'static str)
        ensures
            res@ == saving_text(self),
    {
        match self {
            Saving::Nothing => "",
            Saving::Edited => "saving your edited folders",
            Saving::Fresh => "writing the store",
        }
    }
}

/// Whether the edits made on the home screen are in the store, and need saving.
pub open spec fn kept(
    before: Option<Store>,
    config: Option<Config>,
    after: Option<Store>,
    saving: Saving,
) -> bool {
    match config {
        None => after == before && saving == Saving::Nothing,
        Some(c) => match before {
            Some(s) => if same_config(s.config, c) {
                after == before && saving == Saving::Nothing
            } else {
                &&& saving == Saving::Edited
                &&& after matches Some(t) && t.config@ == c@ && t == (Store {
                    config: t.config,
                    ..s
                })
            },
            None => {
                &&& saving == Saving::Fresh
                &&& after matches Some(t) && {
                    &&& t.version == STORE_VERSION
                    &&& t.config@ == c@
                    &&& t.mappings@.len() == 0
                    &&& t.backup.root is None
                    &&& t.backup.retention is None
                    &&& t.backup.last_backup is None
                    &&& is_timestamp(t.created_at@)
                    &&& t.last_sync is None
                }
            },
        },
    }
}

/// What follows from an intent.
pub open spec fn followed(
    config: Option<Config>,
    source: Option<PathBuf>,
    intent: HomeIntent,
    last_run: Option<String>,
    next: Next,
) -> bool {
    match intent {
        HomeIntent::Quit => next is Leave && last_run is None,
        HomeIntent::Sync => match config {
            Some(c) => next == Next::Sync(c) && last_run is None,
            None => next is Home && chars_in(last_run) == Some(
                "Add a source and a destination before syncing."@,
            ),
        },
        HomeIntent::Mappings => match config {
            Some(c) => next == Next::Mappings(c) && last_run is None,
            None => next is Home && chars_in(last_run) == Some(
                "Add a source and a destination before mapping files."@,
            ),
        },
        HomeIntent::Backup => match source {
            Some(s) => next == Next::Backup(s) && last_run is None,
            None => next is Home && chars_in(last_run) == Some(
                "Add a source before backing up."@,
            ),
        },
    }
}

impl Session {
    /// A run with these arguments. A returning run without review syncs at once; any
    /// other opens the home screen. A reset does without what was saved.
    pub fn begin(args: &Cli, loaded: Option<Store>) -> (res: (Session, First))
        ensures
            res.0.opts == (RunOptions {
                dry_run: args.dry_run,
                yes: args.yes,
                delete: args.delete,
            }),
            res.0.last_run is None,
            res.0.store == if args.reset {
                None
            } else {
                loaded
            },
            match res.1 {
                First::SyncNow(c) => args.yes && (res.0.store matches Some(s) && c@ == s.config@),
                First::Home => !args.yes || res.0.store is None,
            },
    {
        let store = if args.reset {
            None
        } else {
            loaded
        };
        let first = match &store {
            Some(s) => if args.yes {
                First::SyncNow(s.config.clone())
            } else {
                First::Home
            },
            None => First::Home,
        };
        (Session { store, last_run: None, opts: args.options() }, first)
    }

    /// What the home screen opens with: the folders and the mappings that are saved, and
    /// the result of the previous run.
    pub fn home_input(&mut self) -> (res: (Option<Config>, Vec<Mapping>, Option<String>))
        ensures
            *final(self) == (Session { last_run: None, ..*old(self) }),
            res.2 == old(self).last_run,
            match old(self).store {
                Some(s) => {
                    &&& res.0 matches Some(c) && c@ == s.config@
                    &&& links(res.1@) == links(s.mappings@)
                },
                None => res.0 is None && res.1@.len() == 0,
            },
    {
        let last = self.last_run.take();
        match &self.store {
            Some(s) => (Some(s.config.clone()), copy_mappings(&s.mappings), last),
            None => (None, Vec::new(), last),
        }
    }

    /// Take over what the home screen ended with: the edits go into the store, whatever
    /// the user asked for. `source` is the source that is chosen, with or without
    /// destinations.
    pub fn home_done(
        &mut self,
        config: Option<Config>,
        source: Option<PathBuf>,
        intent: HomeIntent,
    ) -> (res: (Saving, Next))
        requires
            old(self).last_run is None,
        ensures
            kept(old(self).store, config, final(self).store, res.0),
            followed(config, source, intent, final(self).last_run, res.1),
            final(self).opts == old(self).opts,
    {
        let saving = match &config {
            None => Saving::Nothing,
            Some(c) => self.keep(c),
        };
        let missing = match intent {
            HomeIntent::Quit => {
                return (saving, Next::Leave);
            },
            HomeIntent::Sync => match config {
                Some(c) => {
                    return (saving, Next::Sync(c));
                },
                None => "Add a source and a destination before syncing.",
            },
            HomeIntent::Mappings => match config {
                Some(c) => {
                    return (saving, Next::Mappings(c));
                },
                None => "Add a source and a destination before mapping files.",
            },
            HomeIntent::Backup => match source {
                Some(s) => {
                    return (saving, Next::Backup(s));
                },
                None => "Add a source before backing up.",
            },
        };
        self.last_run = Some(missing.to_owned());
        (saving, Next::Home)
    }

    fn keep(&mut self, c: &Config) -> (res: Saving)
        ensures
            kept(old(self).store, Some(*c), final(self).store, res),
            final(self).last_run == old(self).last_run,
            final(self).opts == old(self).opts,
    {
        let unchanged = match &self.store {
            Some(s) => Some(config_unchanged(&s.config, c)),
            None => None,
        };
        match unchanged {
            Some(true) => Saving::Nothing,
            Some(false) => {
                if let Some(mut s) = self.store.take() {
                    s.config = c.clone();
                    self.store = Some(s);
                }
                Saving::Edited
            },
            None => {
                self.store = Some(Store::new(c.clone()));
                Saving::Fresh
            },
        }
    }

    /// Take over how a sync ended; gives what is said of it, and whether the store has
    /// to be saved.
    pub fn sync_done(&mut self, outcome: Outcome) -> (res: (String, bool))
        requires
            outcome matches Outcome::Preview(s) ==> s.copies + s.overwrites + s.deletes
                + s.create_dirs <= usize::MAX,
        ensures
            res.0@ == sync_text(outcome),
            res.1 == (outcome is Applied && old(self).store is Some),
            final(self).opts == old(self).opts,
            final(self).last_run == old(self).last_run,
            synced_store(old(self).store, final(self).store, outcome is Applied),
    {
        let save = match outcome {
            Outcome::Applied(_) => self.stamp_sync(),
            _ => false,
        };
        (sync_summary(outcome), save)
    }

    fn stamp_sync(&mut self) -> (res: bool)
        ensures
            res == (old(self).store is Some),
            final(self).opts == old(self).opts,
            final(self).last_run == old(self).last_run,
            synced_store(old(self).store, final(self).store, true),
    {
        if let Some(mut s) = self.store.take() {
            s.mark_synced();
            self.store = Some(s);
            true
        } else {
            false
        }
    }

    /// Take over what the mapping screen ended with: the mappings go into the store;
    /// gives what is said of a sync, if there was one.
    pub fn mappings_done(&mut self, session: MapSession) -> (res: Option<String>)
        ensures
            final(self).opts == old(self).opts,
            final(self).last_run == old(self).last_run,
            match res {
                Some(s) => s == session.summary && s@.len() > 0,
                None => session.summary@.len() == 0,
            },
            match old(self).store {
                Some(s) => synced_store(
                    Some(Store { mappings: session.mappings, ..s }),
                    final(self).store,
                    session.synced,
                ),
                None => final(self).store is None,
            },
    {
        if let Some(mut s) = self.store.take() {
            s.mappings = session.mappings;
            if session.synced {
                s.mark_synced();
            }
            self.store = Some(s);
        }
        if session.summary.as_str().unicode_len() == 0 {
            None
        } else {
            Some(session.summary)
        }
    }

    /// Take over how a backup from the home screen ended; gives what is said of it, and
    /// whether the store has to be saved.
    pub fn backup_done(&mut self, outcome: &BackupOutcome) -> (res: (String, bool))
        ensures
            res.0@ == backup_text(*outcome),
            res.1 == (*outcome is Done && old(self).store is Some),
            final(self).opts == old(self).opts,
            final(self).last_run == old(self).last_run,
            backed_up_store(old(self).store, final(self).store, *outcome is Done),
    {
        match outcome {
            BackupOutcome::Done(report) => {
                let mut save = false;
                if let Some(mut s) = self.store.take() {
                    s.mark_backed_up();
                    self.store = Some(s);
                    save = true;
                }
                let mut m = "Backup complete — ".to_owned();
                m.append(text::decimal_usize(report.files).as_str());
                m.append(" file(s) → ");
                m.append(report.archive_path.display().as_str());
                m.append(" (");
                m.append(human_bytes(report.bytes).as_str());
                m.append(").");
                (m, save)
            },
            BackupOutcome::Failed(msg) => (
                text::concat("Backup failed — ", msg.as_str()),
                false,
            ),
        }
    }
}

/// Whether a store has been stamped with a sync, where it is to be.
pub open spec fn synced_store(before: Option<Store>, after: Option<Store>, stamp: bool) -> bool {
    match before {
        Some(s) => if stamp {
            after matches Some(t) && t == (Store { last_sync: t.last_sync, ..s }) && (
            t.last_sync matches Some(ts) && is_timestamp(ts@))
        } else {
            after == before
        },
        None => after is None,
    }
}

/// Whether a store has been stamped with a backup, where it is to be.
pub open spec fn backed_up_store(before: Option<Store>, after: Option<Store>, stamp: bool) -> bool {
    match before {
        Some(s) => if stamp {
            after matches Some(t) && t.backup.last_backup matches Some(ts) && is_timestamp(ts@) && t
                == (Store {
                backup: crate::store::BackupSettings {
                    last_backup: t.backup.last_backup,
                    ..s.backup
                },
                ..s
            })
        } else {
            after == before
        },
        None => after is None,
    }
}

// --- What is said ----------------------------------------------------------

/// What is said of a sync.
pub open spec fn sync_text(outcome: Outcome) -> Seq<char> {
    match outcome {
        Outcome::Applied(s) => "Sync complete — "@ + decimal(s.copies as nat) + " copied, "@
            + decimal(s.overwrites as nat) + " updated, "@ + decimal(s.deletes as nat)
            + " deleted ("@ + decimal(s.bytes as nat) + " bytes)."@,
        Outcome::Preview(s) => "Dry run — "@ + decimal(
            (s.copies + s.overwrites + s.deletes + s.create_dirs) as nat,
        ) + " change(s) previewed, nothing written."@,
        Outcome::UpToDate => "Everything is already in sync — nothing to do."@,
        Outcome::Cancelled => "Sync cancelled — no changes made."@,
    }
}

/// What is said of a sync.
pub fn sync_summary(outcome: Outcome) -> (res: String)
    requires
        outcome matches Outcome::Preview(s) ==> s.copies + s.overwrites + s.deletes
            + s.create_dirs <= usize::MAX,
    ensures
        res@ == sync_text(outcome),
{
    match outcome {
        Outcome::Applied(stats) => {
            let mut s = "Sync complete — ".to_owned();
            s.append(text::decimal_usize(stats.copies).as_str());
            s.append(" copied, ");
            s.append(text::decimal_usize(stats.overwrites).as_str());
            s.append(" updated, ");
            s.append(text::decimal_usize(stats.deletes).as_str());
            s.append(" deleted (");
            s.append(text::decimal_of(stats.bytes).as_str());
            s.append(" bytes).");
            s
        },
        Outcome::Preview(stats) => {
            let n: usize = stats.copies + stats.overwrites + stats.deletes + stats.create_dirs;
            text::concat3(
                "Dry run — ",
                text::decimal_usize(n).as_str(),
                " change(s) previewed, nothing written.",
            )
        },
        Outcome::UpToDate => "Everything is already in sync — nothing to do.".to_owned(),
        Outcome::Cancelled => "Sync cancelled — no changes made.".to_owned(),
    }
}

/// What the home screen says of a backup.
pub open spec fn backup_text(outcome: BackupOutcome) -> Seq<char> {
    match outcome {
        BackupOutcome::Done(r) => "Backup complete — "@ + decimal(r.files as nat)
            + " file(s) → "@ + lossy_text(r.archive_path@) + " ("@ + bytes_text(r.bytes as nat)
            + ")."@,
        BackupOutcome::Failed(msg) => "Backup failed — "@ + msg@,
    }
}

/// What the home screen says where the source is gone.
pub fn backup_skipped(source: &PathBuf) -> (res: String)
    ensures
        res@ == "Backup skipped — source "@ + lossy_text(source@) + " no longer exists."@,
{
    text::concat3(
        "Backup skipped — source ",
        source.display().as_str(),
        " no longer exists.",
    )
}

/// What the command line says of a backup's progress.
pub open spec fn progress_text(event: BackupEvent) -> Seq<char> {
    match event {
        BackupEvent::FetchingKey => "Fetching the encryption key…"@,
        BackupEvent::Archiving => "Archiving and encrypting…"@,
        BackupEvent::Progress { bytes } => "Archiving and encrypting… "@ + bytes_text(
            bytes as nat,
        ),
        BackupEvent::Pruning => "Pruning old backups…"@,
    }
}

/// What the command line says of a backup's progress.
pub fn progress_line(event: BackupEvent) -> (res: String)
    ensures
        res@ == progress_text(event),
{
    match event {
        BackupEvent::FetchingKey => "Fetching the encryption key…".to_owned(),
        BackupEvent::Archiving => "Archiving and encrypting…".to_owned(),
        BackupEvent::Progress { bytes } => text::concat(
            "Archiving and encrypting… ",
            human_bytes(bytes).as_str(),
        ),
        BackupEvent::Pruning => "Pruning old backups…".to_owned(),
    }
}

/// What the command line says of a finished backup.
pub open spec fn report_text(r: BackupReport) -> Seq<char> {
    if r.dry_run {
        "Dry run — would back up "@ + decimal(r.files as nat) + " file(s) (~"@ + bytes_text(
            r.bytes as nat,
        ) + ") to "@ + lossy_text(r.archive_path@) + ". Nothing written."@
    } else {
        let done = "Backup complete — "@ + decimal(r.files as nat) + " file(s) → "@ + lossy_text(
            r.archive_path@,
        ) + " ("@ + bytes_text(r.bytes as nat) + " encrypted)."@;
        if r.pruned > 0 {
            done + (" Pruned "@ + decimal(r.pruned as nat) + " old archive(s)."@)
        } else {
            done
        }
    }
}

/// What the command line says of a finished backup.
pub fn report_line(r: &BackupReport) -> (res: String)
    ensures
        res@ == report_text(*r),
{
    if r.dry_run {
        let mut s = "Dry run — would back up ".to_owned();
        s.append(text::decimal_usize(r.files).as_str());
        s.append(" file(s) (~");
        s.append(human_bytes(r.bytes).as_str());
        s.append(") to ");
        s.append(r.archive_path.display().as_str());
        s.append(". Nothing written.");
        s
    } else {
        let mut s = "Backup complete — ".to_owned();
        s.append(text::decimal_usize(r.files).as_str());
        s.append(" file(s) → ");
        s.append(r.archive_path.display().as_str());
        s.append(" (");
        s.append(human_bytes(r.bytes).as_str());
        s.append(" encrypted).");
        if r.pruned > 0 {
            let more = text::concat3(
                " Pruned ",
                text::decimal_usize(r.pruned).as_str(),
                " old archive(s).",
            );
            s.append(more.as_str());
        }
        s
    }
}

/// Where a setting comes from, by whether its environment variable is set.
pub fn source_of(in_environment: bool) -> (res: &'static str)
    ensures
        res@ == if in_environment {
            "from the environment"@
        } else {
            "from the config file"@
        },
{
    if in_environment {
        "from the environment"
    } else {
        "from the config file"
    }
}

// --- Restore ---------------------------------------------------------------

/// Where the identity is read from.
#[derive(Debug, PartialEq, Eq)]
pub enum IdentityInput {
    /// The argument itself.
    Argument(String),
    /// Standard input, to its end.
    Stdin,
    /// A hidden prompt.
    Prompt,
}

/// Where the identity is read from: the argument, standard input for `-` or where there
/// is no terminal to prompt on, else a prompt.
pub fn identity_input(arg: Option<String>, terminal: bool) -> (res: IdentityInput)
    ensures
        match arg {
            Some(t) => if t@ == "-"@ {
                res is Stdin
            } else {
                res == IdentityInput::Argument(t)
            },
            None => if terminal {
                res is Prompt
            } else {
                res is Stdin
            },
        },
{
    match arg {
        Some(t) => {
            if text::same_text(t.as_str(), "-") {
                IdentityInput::Stdin
            } else {
                IdentityInput::Argument(t)
            }
        },
        None => {
            if terminal {
                IdentityInput::Prompt
            } else {
                IdentityInput::Stdin
            }
        },
    }
}

/// The folder that a backup is restored into: the one that is given, or else one named
/// after the time.
pub fn restore_target(into: Option<PathBuf>, stamp: &str) -> (res: PathBuf)
    ensures
        match into {
            Some(p) => res == p,
            None => res@ == encode_utf8("bukagu-restore-"@ + stamp@),
        },
{
    match into {
        Some(p) => p,
        None => PathBuf::of(text::concat("bukagu-restore-", stamp).as_str()),
    }
}

/// What is said of a finished restore.
pub fn restored_line(archive: &PathBuf, target: &PathBuf) -> (res: String)
    ensures
        res@ == "Restored "@ + lossy_text(archive@) + " → "@ + lossy_text(target@),
{
    let mut s = "Restored ".to_owned();
    s.append(archive.display().as_str());
    s.append(" → ");
    s.append(target.display().as_str());
    s
}

/// The token that was entered, trimmed; nothing where it is blank.
pub fn entered_token(raw: &str) -> (res: Option<String>)
    ensures
        match res {
            Some(t) => t@ == crate::text::trimmed(raw@) && t@.len() > 0,
            None => crate::text::trimmed(raw@).len() == 0,
        },
{
    let t = text::trim(raw);
    if t.as_str().unicode_len() == 0 {
        None
    } else {
        Some(t)
    }
}

// --- Laws ------------------------------------------------------------------

/// Edits to the folders keep the rest of the store: when it was made, when it was last
/// synced and backed up, and its mappings.
pub proof fn law_edits_keep_the_history(
    before: Store,
    config: Option<Config>,
    after: Option<Store>,
    saving: Saving,
)
    requires
        kept(Some(before), config, after, saving),
    ensures
        after matches Some(t) && {
            &&& t.created_at == before.created_at
            &&& t.last_sync == before.last_sync
            &&& t.mappings == before.mappings
            &&& t.backup == before.backup
        },
{
}

/// What the user put together is what the store holds afterwards: the same source and the
/// same destinations, in order; and where the store named them already, nothing changes
/// and nothing is saved.
pub proof fn law_edits_reach_the_store(
    before: Option<Store>,
    config: Config,
    after: Option<Store>,
    saving: Saving,
)
    requires
        kept(before, Some(config), after, saving),
    ensures
        after matches Some(t) && {
            &&& same_path(t.config.source@, config.source@)
            &&& t.config.destinations@.len() == config.destinations@.len()
            &&& forall|i: int|
                0 <= i < config.destinations@.len() ==> same_path(
                    (#[trigger] t.config.destinations@[i])@,
                    config.destinations@[i]@,
                )
        },
        before is None <==> saving == Saving::Fresh,
        saving == Saving::Nothing ==> after == before,
        (before matches Some(s) && same_path(s.config.source@, config.source@)
            && s.config.destinations@.len() == config.destinations@.len() && (forall|i: int|
            0 <= i < config.destinations@.len() ==> same_path(
                (#[trigger] s.config.destinations@[i])@,
                config.destinations@[i]@,
            ))) ==> saving == Saving::Nothing,
{
    let t = after->0;
    if before is None || !same_config(before->0.config, config) {
        assert(t.config@.destinations == config@.destinations);
        assert(path_bytes(t.config.destinations@).len() == path_bytes(
            config.destinations@,
        ).len());
        assert forall|i: int| 0 <= i < config.destinations@.len() implies same_path(
            (#[trigger] t.config.destinations@[i])@,
            config.destinations@[i]@,
        ) by {
            assert(path_bytes(t.config.destinations@)[i] == path_bytes(config.destinations@)[i]);
        }
    }
}

/// Without a source and a destination nothing is changed or saved.
pub proof fn law_unfinished_edits_change_nothing(
    before: Option<Store>,
    after: Option<Store>,
    saving: Saving,
)
    requires
        kept(before, None, after, saving),
    ensures
        after == before,
        saving == Saving::Nothing,
{
}

/// The user gets what they asked for: a sync and the mappings with what was put together,
/// a backup of the chosen source, the end where they quit; and the home again, with a
/// word, only where something is missing.
pub proof fn law_wishes_are_followed(
    config: Option<Config>,
    source: Option<PathBuf>,
    intent: HomeIntent,
    last_run: Option<String>,
    next: Next,
)
    requires
        followed(config, source, intent, last_run, next),
    ensures
        next is Leave <==> intent is Quit,
        intent is Sync && config is Some ==> next == Next::Sync(config->0),
        intent is Mappings && config is Some ==> next == Next::Mappings(config->0),
        intent is Backup && source is Some ==> next == Next::Backup(source->0),
        next is Home <==> last_run is Some,
        next is Home ==> (intent is Backup && source is None) || ((intent is Sync
            || intent is Mappings) && config is None),
{
}

/// A sync that was applied stamps the store with its time, a backup that was made with
/// its own, and neither changes anything else; where none was, the store stays.
pub proof fn law_stamps_change_only_the_time(
    before: Store,
    synced: Option<Store>,
    backed_up: Option<Store>,
    stamp: bool,
)
    requires
        synced_store(Some(before), synced, stamp),
        backed_up_store(Some(before), backed_up, stamp),
    ensures
        synced matches Some(t) && {
            &&& t.config == before.config && t.mappings == before.mappings && t.backup
                == before.backup && t.created_at == before.created_at && t.version
                == before.version
            &&& stamp ==> (t.last_sync matches Some(ts) && is_timestamp(ts@))
            &&& !stamp ==> t.last_sync == before.last_sync
        },
        backed_up matches Some(t) && {
            &&& t.config == before.config && t.mappings == before.mappings && t.last_sync
                == before.last_sync && t.created_at == before.created_at && t.backup.root
                == before.backup.root && t.backup.retention == before.backup.retention
            &&& stamp ==> (t.backup.last_backup matches Some(ts) && is_timestamp(ts@))
            &&& !stamp ==> t.backup.last_backup == before.backup.last_backup
        },
{
}

/// What is said of a finished backup on the command line: a dry run that nothing was
/// written; else how many files went where, and how many old archives were removed, if
/// any.
pub proof fn law_reports_tell_what_was_done(r: BackupReport)
    ensures
        r.dry_run ==> report_text(r) == "Dry run — would back up "@ + decimal(r.files as nat)
            + " file(s) (~"@ + bytes_text(r.bytes as nat) + ") to "@ + lossy_text(r.archive_path@)
            + ". Nothing written."@,
        !r.dry_run && r.pruned == 0 ==> report_text(r) == "Backup complete — "@ + decimal(
            r.files as nat,
        ) + " file(s) → "@ + lossy_text(r.archive_path@) + " ("@ + bytes_text(r.bytes as nat)
            + " encrypted)."@,
        !r.dry_run && r.pruned > 0 ==> report_text(r) == "Backup complete — "@ + decimal(
            r.files as nat,
        ) + " file(s) → "@ + lossy_text(r.archive_path@) + " ("@ + bytes_text(r.bytes as nat)
            + " encrypted)."@ + (" Pruned "@ + decimal(r.pruned as nat) + " old archive(s)."@),
{
}

/// What is said of a sync: its totals where it was applied, on a dry run how many changes
/// there would be, and else that there was nothing to do or that it was cancelled.
pub proof fn law_summaries_tell_what_was_done(s: Stats)
    ensures
        sync_text(Outcome::Applied(s)) == "Sync complete — "@ + decimal(s.copies as nat)
            + " copied, "@ + decimal(s.overwrites as nat) + " updated, "@ + decimal(
            s.deletes as nat,
        ) + " deleted ("@ + decimal(s.bytes as nat) + " bytes)."@,
        sync_text(Outcome::Preview(s)) == "Dry run — "@ + decimal(
            (s.create_dirs + s.copies + s.overwrites + s.deletes) as nat,
        ) + " change(s) previewed, nothing written."@,
        sync_text(Outcome::UpToDate) == "Everything is already in sync — nothing to do."@,
        sync_text(Outcome::Cancelled) == "Sync cancelled — no changes made."@,
{
    assert(s.create_dirs + s.copies + s.overwrites + s.deletes == s.copies + s.overwrites
        + s.deletes + s.create_dirs);
}

} // verus!
