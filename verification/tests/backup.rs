use bukagu::backup::crypto::{
    decrypt_with, encrypt_to, open_archive, seal_archive, Identity, Recipient, Stage,
};
use bukagu::backup::job::{BackupJob, JobEvent, JobState, JobStep};
use bukagu::backup::key::{
    parse_recipient, HttpKeyProvider, KeyError, KeyProvider, KeyReply, StaticKeyProvider,
};
use bukagu::backup::restore::{
    identity_source, newest_archive, parse_identity, restore, IdentitySource,
};
use bukagu::backup::{
    archive_paths, default_backup_root, guard_backup_dir, is_archive, pack, prune,
    resolve_backup_dir, source_stats, BackupEvent, BackupReport, DirItem, WriteMeter,
    PROGRESS_STEP,
};
use bukagu::credentials::Credentials;
use bukagu::engine::scan::Found;
use bukagu::path::PathBuf;
use bukagu::resolve::{resolved_abs, Place};
use bukagu::store::BackupSettings;
use bukagu::ui::backup::{screen_lines, screen_title, BackupOutcome, Msg, State};
use age::secrecy::ExposeSecret;
use std::time::SystemTime;

fn p(s: &str) -> PathBuf {
    PathBuf::of(s)
}

fn place(s: &str) -> Place {
    Place { path: p(s), resolved: p(s) }
}

/// A fresh identity, as text.
fn secret() -> String {
    age::x25519::Identity::generate().to_string().expose_secret().to_string()
}

fn identity() -> Identity {
    parse_identity(&secret()).unwrap()
}

#[test]
fn encrypt_then_decrypt_roundtrips() {
    let id = identity();
    let recipient = id.to_public();
    let msg = b"bukagu secret source bytes \x00\x01\x02\xff".to_vec();
    assert!(!recipient.is_unusable());
    let ct = encrypt_to(&recipient, &msg);
    assert_ne!(ct, msg, "ciphertext != plaintext");
    assert_eq!(decrypt_with(&id, &ct).unwrap(), msg);
}

#[test]
fn wrong_identity_cannot_decrypt() {
    let id = identity();
    let other = identity();
    let ct = encrypt_to(&id.to_public(), &b"only for id".to_vec());
    let err = decrypt_with(&other, &ct).unwrap_err();
    assert_eq!(err.stage, Some(Stage::Key), "a different identity must not decrypt");
    assert!(err
        .message(&p("/out"))
        .starts_with("decrypting the backup (wrong key or corrupt file?): "));
}

#[test]
fn tampered_ciphertext_fails() {
    let id = identity();
    let mut ct = encrypt_to(
        &id.to_public(),
        &b"the quick brown fox jumps over the lazy dog".to_vec(),
    );
    let last = ct.len() - 1;
    ct[last] ^= 0x01;
    let err = decrypt_with(&id, &ct).unwrap_err();
    assert_eq!(err.stage, Some(Stage::Payload), "tampered payload must fail authentication");
}

#[test]
fn junk_has_no_header() {
    let err = decrypt_with(&identity(), &b"not an age file".to_vec()).unwrap_err();
    assert_eq!(err.stage, Some(Stage::Header));
}

#[test]
fn sealed_archives_open_again() {
    let id = identity();
    let tar: Vec<u8> = (0..200_000u32).map(|i| (i % 251) as u8).collect();
    let sealed = seal_archive(&id.to_public(), &tar);
    assert!(sealed.len() < tar.len(), "compressed before it is encrypted");
    assert_eq!(open_archive(&id, &sealed).unwrap(), tar);
    assert_eq!(open_archive(&id, &seal_archive(&id.to_public(), &vec![])).unwrap(), vec![]);

    let plain = encrypt_to(&id.to_public(), &b"no gzip in here".to_vec());
    let err = open_archive(&id, &plain).unwrap_err();
    assert_eq!(err.stage, None);
    assert!(err.message(&p("/out")).starts_with("unpacking into /out: "));
}

#[test]
fn parse_recipient_accepts_a_real_age_key() {
    let text = age::x25519::Identity::generate().to_public().to_string();
    let parsed = parse_recipient(&format!("  {text}\n")).unwrap();
    assert_eq!(parsed.to_string(), text, "whitespace trimmed, key preserved");
}

#[test]
fn parse_recipient_rejects_junk() {
    assert!(parse_recipient("").is_err());
    assert!(parse_recipient("   ").is_err());
    assert!(parse_recipient("not-an-age-key").is_err());
    assert!(parse_recipient("age1clearlyinvalid").is_err());
    assert_eq!(
        parse_recipient(" ").unwrap_err().message(),
        "the backup key API returned an empty body"
    );
    assert_eq!(
        parse_recipient("junk").unwrap_err().message(),
        "the backup key API did not return a valid age recipient: invalid Bech32 encoding"
    );
}

#[test]
fn low_order_recipients_are_unusable() {
    for text in [
        "age1qqqqqqqqqqqqqqqqqqqqqqqqqqqqqqqqqqqqqqqqqqqqqqqqqqqq5cu47z",
        "age1qyqqqqqqqqqqqqqqqqqqqqqqqqqqqqqqqqqqqqqqqqqqqqqqqzqqk67yly",
        "age1ur4h5lpmgxu2u9jku0a0r87ydtdqnr0tnsetrlvxvgz3vh6fhqqqzyt4v9",
        "age1t7wft09r2zxzfvwsk92eeql0tvzyghxytqwgapkcyf8dm5ylz8ts72fzt7",
        "age1anlllllllllllllllllllllllllllllllllllllllllllllllals4n2t7m",
        "age1ahlllllllllllllllllllllllllllllllllllllllllllllllllsh3g6la",
        "age1amlllllllllllllllllllllllllllllllllllllllllllllllllsam3fc4",
    ] {
        let r = parse_recipient(text).unwrap();
        assert_eq!(r.to_string(), text);
        assert!(r.is_unusable());
    }
}

#[test]
fn static_provider_returns_its_recipient() {
    let recipient = identity().to_public();
    let provider = StaticKeyProvider::new(recipient.clone());
    assert_eq!(provider.recipient().unwrap().to_string(), recipient.to_string());
}

#[test]
fn http_provider_asks_the_configured_endpoint() {
    let provider = HttpKeyProvider::new(Credentials {
        api_token: "SECRET".into(),
        api_url: "https://api.example.com".into(),
    });
    let request = provider.request("");
    assert_eq!(request.url, "https://api.example.com/recipient");
    assert_eq!(request.authorization, "Bearer SECRET");
    assert_eq!(provider.endpoint("v2/key/"), "https://api.example.com/v2/key");

    let text = identity().to_public().to_string();
    let got = provider.answer(&request, KeyReply::Body(format!("{text}\n"))).unwrap();
    assert_eq!(got.to_string(), text);
    let said = |reply: KeyReply| provider.answer(&request, reply).unwrap_err().message();
    assert_eq!(
        said(KeyReply::Status(401)),
        "the backup key API returned HTTP 401 — is your API token valid? re-run `bukagu auth login`"
    );
    assert_eq!(
        said(KeyReply::Status(302)),
        "the backup key API returned HTTP 302 — the API redirected; point BUKAGU_API_URL at the \
         final https URL"
    );
    assert_eq!(said(KeyReply::Status(500)), "the backup key API returned HTTP 500");
    assert_eq!(
        said(KeyReply::Unreachable("dns".into())),
        "could not reach the backup key API at https://api.example.com/recipient: dns"
    );
    assert_eq!(
        said(KeyReply::Unreadable("eof".into())),
        "reading the key API response: eof"
    );
    assert_eq!(provider.answer(&request, KeyReply::Body(" ".into())).unwrap_err(), KeyError::EmptyBody);
}

#[test]
fn parse_identity_roundtrips_literal_and_file() {
    let s = secret();
    let id = parse_identity(&s).unwrap();
    let public = id.to_public().to_string();
    let file = format!("# created: now\n# public key: {public}\n{s}\n");
    assert_eq!(parse_identity(&file).unwrap().to_public().to_string(), public);
    let lower = format!("junk first\r\n  {}  \r\n", s.to_lowercase());
    assert_eq!(parse_identity(&lower).unwrap().to_public().to_string(), public);

    assert_eq!(identity_source("@/k.txt"), IdentitySource::File("/k.txt".into()));
    assert_eq!(identity_source("AGE-X"), IdentitySource::Literal("AGE-X".into()));
}

#[test]
fn parse_identity_rejects_junk() {
    assert!(parse_identity("not-a-key").is_err());
    assert!(parse_identity("").is_err());
    let err = match parse_identity("# only a comment\n") {
        Err(e) => e,
        Ok(_) => panic!("a comment is no identity"),
    };
    assert_eq!(
        err.message(),
        "not a valid age identity (expected AGE-SECRET-KEY-1…): invalid Bech32 encoding"
    );
}

fn file(path: &str) -> DirItem {
    DirItem { path: p(path), is_file: true }
}

#[test]
fn retention_prunes_oldest_archives() {
    let items = vec![
        file("/b/20260103T000000Z.tar.gz.age"),
        file("/b/notes.txt"),
        file("/b/20260101T000000Z.tar.gz.age"),
        file("/b/.20260104T000000Z.tar.gz.age.partial"),
        file("/b/20260102T000000Z.tar.gz.age"),
        DirItem { path: p("/b/20250101T000000Z.tar.gz.age"), is_file: false },
    ];
    assert_eq!(prune(&items, 2), vec![p("/b/20260101T000000Z.tar.gz.age")]);
    assert_eq!(
        prune(&items, 1),
        vec![p("/b/20260101T000000Z.tar.gz.age"), p("/b/20260102T000000Z.tar.gz.age")]
    );
    assert!(prune(&items, 0).is_empty(), "0 keeps everything");
    assert!(prune(&items, 3).is_empty());
    assert_eq!(newest_archive(&items), Some(p("/b/20260103T000000Z.tar.gz.age")));
    assert_eq!(newest_archive(&vec![file("/b/notes.txt")]), None);
    assert!(!is_archive(&items[3]), "a partial archive is none");
}

#[test]
fn backup_folders_follow_the_settings() {
    let home = Some(p("/home/me"));
    assert_eq!(default_backup_root(&p("/home/me")), p("/home/me/bukagu-backups"));
    assert_eq!(
        resolve_backup_dir(&BackupSettings::default(), &home, &p("/w/my app")),
        Some(p("/home/me/bukagu-backups/my_app"))
    );
    let settings = BackupSettings { root: Some(p("/vault")), ..Default::default() };
    assert_eq!(resolve_backup_dir(&settings, &None, &p("/w/app")), Some(p("/vault/app")));
    assert_eq!(resolve_backup_dir(&BackupSettings::default(), &None, &p("/w/app")), None);
    for project in ["/w/app", "/w/..hidden..", "/w/a b/c:d", "/", "/w/..", "/w/ü"] {
        let dir = resolve_backup_dir(&settings, &None, &p(project)).unwrap();
        assert_eq!(dir.parent(), Some(p("/vault")), "right below the root: {project}");
        assert_eq!(dir.depth(), 3);
    }
    assert_eq!(
        archive_paths(&p("/vault/app"), "20260101T000000Z"),
        (
            p("/vault/app/20260101T000000Z.tar.gz.age"),
            p("/vault/app/.20260101T000000Z.tar.gz.age.partial"),
        )
    );
}

#[test]
fn refuses_backup_dir_inside_source() {
    let mut job = BackupJob::new(place("/src"), place("/src/backups"), 10, false);
    let turn = job.advance(JobEvent::Begin);
    match turn.step {
        JobStep::Fail(m) => assert!(m.contains("refusing to back up")),
        other => panic!("expected a refusal, got {other:?}"),
    }
    assert_eq!(job.state, JobState::Over, "guard runs before any directory is created");
    assert_eq!(
        guard_backup_dir(&place("/src"), &place("/src")).unwrap_err().message(),
        "refusing to back up: the backup folder equals the source (/src)"
    );
    assert_eq!(
        guard_backup_dir(&place("/a/src"), &place("/a")).unwrap_err().message(),
        "refusing to back up: the source /a/src is inside the backup folder /a"
    );
}

fn key_event() -> JobEvent {
    JobEvent::Key { recipient: identity().to_public(), stamp: "20260101T000000Z".into() }
}

#[test]
fn mod_dry_run_writes_nothing() {
    let mut job = BackupJob::new(place("/src"), place("/b"), 10, true);
    let turn = job.advance(JobEvent::Begin);
    assert_eq!(turn.event, Some(BackupEvent::FetchingKey));
    assert!(matches!(turn.step, JobStep::FetchKey));
    assert!(matches!(job.advance(key_event()).step, JobStep::Measure));
    match job.advance(JobEvent::Measured { files: 1, bytes: 5 }).step {
        JobStep::Finish(report) => {
            assert!(report.dry_run);
            assert_eq!(report.files, 1);
            assert_eq!(report.archive_path, p("/b/20260101T000000Z.tar.gz.age"));
        }
        other => panic!("expected the report, got {other:?}"),
    }
}

#[test]
fn a_backup_runs_to_its_report() {
    let mut job = BackupJob::new(place("/src"), place("/b"), 1, false);
    job.advance(JobEvent::Begin);
    assert!(matches!(job.advance(key_event()).step, JobStep::MakeDir(d) if d == p("/b")));
    let turn = job.advance(JobEvent::DirMade);
    assert_eq!(turn.event, Some(BackupEvent::Archiving));
    assert!(matches!(turn.step,
        JobStep::WriteArchive(f) if f == p("/b/.20260101T000000Z.tar.gz.age.partial")));
    match job.advance(JobEvent::Written { files: 2 }).step {
        JobStep::Rename { from, to } => {
            assert_eq!(from, p("/b/.20260101T000000Z.tar.gz.age.partial"));
            assert_eq!(to, p("/b/20260101T000000Z.tar.gz.age"));
        }
        other => panic!("expected the renaming, got {other:?}"),
    }
    assert!(matches!(job.advance(JobEvent::Renamed).step, JobStep::Size(_)));
    let turn = job.advance(JobEvent::Sized(Some(99)));
    assert_eq!(turn.event, Some(BackupEvent::Pruning));
    assert!(matches!(turn.step, JobStep::List(d) if d == p("/b")));
    let turn = job.advance(JobEvent::Listed(vec![
        file("/b/20260101T000000Z.tar.gz.age"),
        file("/b/20250101T000000Z.tar.gz.age"),
    ]));
    assert!(matches!(turn.step, JobStep::Remove(f) if f == p("/b/20250101T000000Z.tar.gz.age")));
    match job.advance(JobEvent::Removed).step {
        JobStep::Finish(r) => assert_eq!((r.files, r.bytes, r.pruned, r.dry_run), (2, 99, 1, false)),
        other => panic!("expected the report, got {other:?}"),
    }
}

#[test]
fn a_failed_archive_is_cleared_away() {
    let mut job = BackupJob::new(place("/src"), place("/b"), 0, false);
    job.advance(JobEvent::Begin);
    job.advance(key_event());
    job.advance(JobEvent::DirMade);
    assert!(matches!(job.advance(JobEvent::Failed("disk full".into())).step, JobStep::Clear(_)));
    assert!(matches!(job.advance(JobEvent::Cleared).step, JobStep::Fail(m) if m == "disk full"));

    let mut job = BackupJob::new(place("/src"), place("/b"), 0, false);
    job.advance(JobEvent::Begin);
    assert!(matches!(job.advance(JobEvent::Failed("no key".into())).step,
        JobStep::Fail(m) if m == "no key"));
}

#[test]
fn keeping_everything_skips_the_listing() {
    let mut job = BackupJob::new(place("/src"), place("/b"), 0, false);
    job.advance(JobEvent::Begin);
    job.advance(key_event());
    job.advance(JobEvent::DirMade);
    job.advance(JobEvent::Written { files: 1 });
    job.advance(JobEvent::Renamed);
    let turn = job.advance(JobEvent::Sized(None));
    assert_eq!(turn.event, Some(BackupEvent::Pruning));
    assert!(matches!(turn.step, JobStep::Finish(r) if r.bytes == 0 && r.pruned == 0));
}

#[test]
fn restore_refuses_to_clobber_the_source() {
    let src = Some(place("/src"));
    let err = restore(&place("/src"), false, &src, true).unwrap_err();
    assert!(err.message().contains("overlaps the read-only source"));
    let err = restore(&place("/src/sub"), false, &src, true).unwrap_err();
    assert!(err.message().contains("overlaps the read-only source"));
    assert!(restore(&place("/out"), false, &src, false).is_ok());
}

#[test]
fn restore_into_a_missing_relative_folder_is_held_against_the_working_directory() {
    let nothing = vec![None, None];
    let below = |cwd: &str| Place {
        path: p("out"),
        resolved: resolved_abs(&p("out"), &nothing, &p(cwd)),
    };
    let src = Some(place("/src"));
    let err = restore(&below("/src"), false, &src, true).unwrap_err();
    assert_eq!(
        err.message(),
        "refusing to restore into out — it overlaps the read-only source /src"
    );
    assert!(restore(&below("/elsewhere"), false, &src, false).is_ok());
}

#[test]
fn restore_refuses_nonempty_target_without_force() {
    let err = restore(&place("/out"), true, &None, false).unwrap_err();
    assert!(err.message().contains("not empty"));
    assert_eq!(
        err.message(),
        "/out already exists and is not empty — pass --force to restore into it"
    );
    assert!(restore(&place("/out"), true, &None, true).is_ok());
}

fn found(path: &str, is_dir: bool, is_symlink: bool, len: u64) -> Found {
    Found {
        path: p(path),
        is_symlink,
        is_dir,
        is_file: !is_dir && !is_symlink,
        len,
        mtime: SystemTime::UNIX_EPOCH,
    }
}

#[test]
fn archive_symlinks_are_skipped() {
    let all = vec![
        found("/s/a.txt", false, false, 5),
        found("/s/link", false, true, 9),
        found("/s/empty", true, false, 4096),
    ];
    let list = pack(&p("/s"), &all).unwrap();
    assert_eq!(list.files, 1);
    let mut names = Vec::new();
    for e in &list.entries {
        names.push((e.rel.display(), e.is_dir));
    }
    assert_eq!(names, vec![("a.txt".to_string(), false), ("empty".to_string(), true)]);
    assert_eq!(source_stats(&all), Some((1, 5)));
    assert_eq!(
        source_stats(&vec![found("/s/a", false, false, u64::MAX), found("/s/b", false, false, 1)]),
        None
    );
    assert!(pack(&p("/s"), &vec![found("/t/x", false, false, 1)]).is_err());
}

#[test]
fn progress_is_reported_in_steps() {
    let mut meter = WriteMeter::new();
    assert_eq!(meter.advance(1000), None);
    let step = PROGRESS_STEP as usize;
    assert_eq!(
        meter.advance(step),
        Some(BackupEvent::Progress { bytes: PROGRESS_STEP + 1000 })
    );
    assert_eq!(meter.advance(step - 1), None);
    assert!(meter.advance(1).is_some());
}

fn render(state: &State) -> String {
    let mut out = screen_title().to_string();
    for line in screen_lines(state).lines.iter() {
        for span in line.spans.iter() {
            out.push_str(&span.text);
        }
        out.push('\n');
    }
    out
}

#[test]
fn running_screen_shows_status_and_bytes() {
    let state = State {
        status: "Archiving and encrypting…".into(),
        bytes: 2048,
        tick: 0,
        finished: None,
    };
    let out = render(&state);
    assert!(out.contains("backup"), "panel title drawn");
    assert!(out.contains("Archiving"), "current status shown");
    assert!(out.contains("written"), "byte counter shown");
    assert!(out.contains("⠋  Archiving and encrypting…\n    2.0 KiB written\n"));
}

#[test]
fn failed_screen_shows_the_error() {
    let state = State {
        status: String::new(),
        bytes: 0,
        tick: 0,
        finished: Some(BackupOutcome::Failed("no API token".into())),
    };
    let out = render(&state);
    assert!(out.contains("failed"), "failure is announced");
    assert!(out.contains("no API token"), "the error message is shown");
}

#[test]
fn backup_screen_follows_its_worker() {
    let mut state = State::new();
    assert_eq!(state.status, "Starting…");
    state.on_message(Msg::Event(BackupEvent::FetchingKey));
    assert_eq!(state.status, "Fetching the encryption key…");
    state.on_message(Msg::Event(BackupEvent::Progress { bytes: 7 }));
    assert_eq!(state.bytes, 7);
    state.on_message(Msg::Event(BackupEvent::Pruning));
    assert!(!state.key_leaves(), "never interrupted while writing");
    state.advance();
    assert_eq!(state.tick, 1);
    state.on_message(Msg::Done(BackupReport {
        archive_path: p("/b/x.tar.gz.age"),
        files: 3,
        bytes: 1024,
        pruned: 0,
        dry_run: false,
    }));
    assert!(state.key_leaves());
    let out = render(&state);
    assert!(out.contains("✓ Backup complete\n  3 file(s) · 1.0 KiB encrypted\n  /b/x.tar.gz.age\n"));
    assert!(matches!(state.outcome(), BackupOutcome::Done(r) if r.files == 3));
    assert!(matches!(State::new().outcome(),
        BackupOutcome::Failed(m) if m == "the backup worker stopped unexpectedly"));
}

#[test]
fn recipients_parse_through_age() {
    let text = age::x25519::Identity::generate().to_public().to_string();
    assert_eq!(Recipient::parse(&text).unwrap().to_string(), text);
    assert_eq!(Recipient::parse("x").unwrap_err(), "invalid Bech32 encoding");
    assert_eq!(Identity::parse("x").err(), Some("invalid Bech32 encoding".to_string()));
}
