use bukagu::app::RunOptions;
use bukagu::backup::{BackupEvent, BackupReport};
use bukagu::cli::Cli;
use bukagu::engine::Stats;
use bukagu::path::PathBuf;
use bukagu::session::{
    backup_skipped, entered_token, identity_input, progress_line, report_line, restore_target,
    restored_line, source_of, sync_summary, First, IdentityInput, Next, Saving, Session,
};
use bukagu::store::{Config, Mapping, Store};
use bukagu::theme::{ansi_fg, banner_lines, palette, rgb, GOLD};
use bukagu::ui::backup::BackupOutcome;
use bukagu::ui::browser::HomeIntent;
use bukagu::ui::dashboard::Outcome;
use bukagu::ui::mappings::MapSession;

fn p(s: &str) -> PathBuf {
    PathBuf::of(s)
}

fn config(dest: &str) -> Config {
    Config { source: p("/src"), destinations: vec![p(dest)] }
}

fn args(yes: bool, reset: bool) -> Cli {
    Cli { command: None, dry_run: false, yes, delete: true, reset }
}

fn store() -> Store {
    let mut s = Store::created(config("/d"), "2026-01-01T00:00:00Z".to_string());
    s.mappings.push(Mapping { source_rel: p("a.py"), targets: vec![p("/d/a.py")] });
    s.last_sync = Some("earlier".to_string());
    s
}

fn report(dry_run: bool, pruned: usize) -> BackupReport {
    BackupReport { archive_path: p("/b/x.tar.gz.age"), files: 2, bytes: 1536, pruned, dry_run }
}

#[test]
fn a_returning_unattended_run_syncs_at_once() {
    let (s, first) = Session::begin(&args(true, false), Some(store()));
    assert!(matches!(first, First::SyncNow(c) if c == config("/d")));
    assert_eq!(s.opts, RunOptions { dry_run: false, yes: true, delete: true });
    assert!(matches!(Session::begin(&args(true, false), None).1, First::Home));
    assert!(matches!(Session::begin(&args(false, false), Some(store())).1, First::Home));
    let (s, first) = Session::begin(&args(true, true), Some(store()));
    assert!(matches!(first, First::Home), "a reset starts over");
    assert!(s.store.is_none());
}

#[test]
fn edits_are_kept_whatever_comes_next() {
    let (mut s, _) = Session::begin(&args(false, false), Some(store()));
    s.last_run = Some("said".to_string());
    let (initial, mappings, last) = s.home_input();
    assert_eq!(initial, Some(config("/d")));
    assert_eq!(mappings.len(), 1);
    assert_eq!(last.as_deref(), Some("said"));

    let (saving, next) = s.home_done(Some(config("/e")), None, HomeIntent::Quit);
    assert_eq!(saving, Saving::Edited);
    assert_eq!(saving.context(), "saving your edited folders");
    assert!(matches!(next, Next::Leave));
    let kept = s.store.as_ref().unwrap();
    assert_eq!(kept.config, config("/e"));
    assert_eq!(kept.created_at, "2026-01-01T00:00:00Z");
    assert_eq!(kept.last_sync.as_deref(), Some("earlier"));
    assert_eq!(kept.mappings.len(), 1);

    let (saving, next) = s.home_done(Some(config("/e/")), None, HomeIntent::Sync);
    assert_eq!(saving, Saving::Nothing, "the same folders");
    assert!(matches!(next, Next::Sync(_)));
}

#[test]
fn a_first_run_writes_a_store() {
    let (mut s, _) = Session::begin(&args(false, false), None);
    let (saving, next) = s.home_done(Some(config("/d")), None, HomeIntent::Mappings);
    assert_eq!(saving, Saving::Fresh);
    assert!(matches!(next, Next::Mappings(c) if c == config("/d")));
    assert_eq!(s.store.as_ref().unwrap().config, config("/d"));
}

#[test]
fn intents_without_folders_are_explained() {
    for (intent, text) in [
        (HomeIntent::Sync, "Add a source and a destination before syncing."),
        (HomeIntent::Mappings, "Add a source and a destination before mapping files."),
        (HomeIntent::Backup, "Add a source before backing up."),
    ] {
        let (mut s, _) = Session::begin(&args(false, false), None);
        let (saving, next) = s.home_done(None, None, intent);
        assert_eq!(saving, Saving::Nothing);
        assert!(matches!(next, Next::Home));
        assert_eq!(s.last_run.as_deref(), Some(text));
    }
}

#[test]
fn syncs_are_stamped_only_when_applied() {
    let stats = Stats { create_dirs: 1, copies: 2, overwrites: 3, deletes: 4, bytes: 50 };
    let (mut s, _) = Session::begin(&args(false, false), Some(store()));
    let (said, save) = s.sync_done(Outcome::Preview(stats));
    assert_eq!(said, "Dry run — 10 change(s) previewed, nothing written.");
    assert!(!save);
    assert_eq!(s.store.as_ref().unwrap().last_sync.as_deref(), Some("earlier"));
    let (said, save) = s.sync_done(Outcome::Applied(stats));
    assert_eq!(said, "Sync complete — 2 copied, 3 updated, 4 deleted (50 bytes).");
    assert!(save);
    assert_eq!(s.store.as_ref().unwrap().last_sync.as_ref().unwrap().len(), 20);
    assert_eq!(sync_summary(Outcome::UpToDate), "Everything is already in sync — nothing to do.");
    assert_eq!(sync_summary(Outcome::Cancelled), "Sync cancelled — no changes made.");
}

#[test]
fn mapping_sessions_go_into_the_store() {
    let (mut s, _) = Session::begin(&args(false, false), Some(store()));
    let said = s.mappings_done(MapSession {
        mappings: Vec::new(),
        synced: false,
        summary: String::new(),
    });
    assert_eq!(said, None);
    assert!(s.store.as_ref().unwrap().mappings.is_empty());
    assert_eq!(s.store.as_ref().unwrap().last_sync.as_deref(), Some("earlier"));
    let said = s.mappings_done(MapSession {
        mappings: Vec::new(),
        synced: true,
        summary: "done".into(),
    });
    assert_eq!(said.as_deref(), Some("done"));
    assert_eq!(s.store.as_ref().unwrap().last_sync.as_ref().unwrap().len(), 20);
}

#[test]
fn backups_are_stamped_and_reported() {
    let (mut s, _) = Session::begin(&args(false, false), Some(store()));
    let (said, save) = s.backup_done(&BackupOutcome::Failed("no key".into()));
    assert_eq!((said.as_str(), save), ("Backup failed — no key", false));
    let (said, save) = s.backup_done(&BackupOutcome::Done(report(false, 0)));
    assert_eq!(said, "Backup complete — 2 file(s) → /b/x.tar.gz.age (1.5 KiB).");
    assert!(save);
    assert!(s.store.as_ref().unwrap().backup.last_backup.is_some());
    assert_eq!(
        backup_skipped(&p("/src")),
        "Backup skipped — source /src no longer exists."
    );
    assert_eq!(
        report_line(&report(true, 0)),
        "Dry run — would back up 2 file(s) (~1.5 KiB) to /b/x.tar.gz.age. Nothing written."
    );
    assert_eq!(
        report_line(&report(false, 3)),
        "Backup complete — 2 file(s) → /b/x.tar.gz.age (1.5 KiB encrypted). Pruned 3 old \
         archive(s)."
    );
    assert_eq!(progress_line(BackupEvent::FetchingKey), "Fetching the encryption key…");
    assert_eq!(
        progress_line(BackupEvent::Progress { bytes: 2048 }),
        "Archiving and encrypting… 2.0 KiB"
    );
}

#[test]
fn identities_come_from_where_they_are_given() {
    assert_eq!(identity_input(Some("-".into()), true), IdentityInput::Stdin);
    assert_eq!(identity_input(Some("@k".into()), true), IdentityInput::Argument("@k".into()));
    assert_eq!(identity_input(None, true), IdentityInput::Prompt);
    assert_eq!(identity_input(None, false), IdentityInput::Stdin);
    assert_eq!(restore_target(Some(p("/out")), "S"), p("/out"));
    assert_eq!(restore_target(None, "20260101T000000Z"), p("bukagu-restore-20260101T000000Z"));
    assert_eq!(restored_line(&p("/a"), &p("/b")), "Restored /a → /b");
    assert_eq!(source_of(true), "from the environment");
    assert_eq!(source_of(false), "from the config file");
    assert_eq!(entered_token("  tok\n").as_deref(), Some("tok"));
    assert_eq!(entered_token(" \n"), None);
}

#[test]
fn colors_are_escaped_by_channel() {
    assert_eq!(rgb(GOLD), (0xFF, 0xBA, 0x08));
    assert_eq!(ansi_fg(GOLD, "hi"), "\x1b[38;2;255;186;8mhi\x1b[0m");
    let (name, bar) = banner_lines();
    assert_eq!(name, "\x1b[38;2;255;186;8mbukagu\x1b[0m");
    assert!(bar.starts_with("\x1b[48;2;3;7;30m  \x1b[0m"));
    assert_eq!(bar.matches("  ").count(), palette().len());
}

#[test]
fn a_backup_needs_only_a_source() {
    let (mut s, _) = Session::begin(&args(false, false), None);
    let (saving, next) = s.home_done(None, Some(p("/src")), HomeIntent::Backup);
    assert_eq!(saving, Saving::Nothing);
    assert!(matches!(next, Next::Backup(source) if source == p("/src")));
    assert!(s.store.is_none() && s.last_run.is_none());
    let (_, next) = s.home_done(None, Some(p("/src")), HomeIntent::Sync);
    assert!(matches!(next, Next::Home), "a sync needs a destination too");
}
