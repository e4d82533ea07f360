use bukagu::engine::apply::{apply_with_progress, guard_destination, stays_inside, FsOp, GuardError};
use bukagu::engine::diff::{contested, diff, total_file_bytes, DiffError, DigestPair};
use bukagu::engine::hash::{hash_pieces, ContentHasher, Digest};
use bukagu::engine::scan::{scan as record, Found, ScanError};
use bukagu::engine::{FileEntry, Plan, Scan, SyncAction};
use bukagu::message::Message;
use bukagu::path::PathBuf;
use bukagu::resolve::{ancestors, resolved_abs, Located, Place, Resolver};
use bukagu::ui::dashboard::{check_destination, planned_message, scanned_message};
use std::time::SystemTime;

fn p(s: &str) -> PathBuf {
    PathBuf::of(s)
}

/// A folder tree in memory: files with their contents, directories without.
type Tree<'a> = Vec<(&'a str, Option<&'a str>)>;

fn scan(tree: &Tree) -> Scan {
    let mut s = Scan::new();
    for (rel, content) in tree {
        s.insert(FileEntry {
            rel_path: p(rel),
            size: content.map_or(0, |c| c.len() as u64),
            mtime: SystemTime::UNIX_EPOCH,
            is_dir: content.is_none(),
        });
    }
    s
}

fn hash(text: &str) -> Digest {
    hash_pieces(&vec![text.as_bytes().to_vec()])
}

fn content<'a>(tree: &Tree<'a>, rel: &PathBuf) -> &'a str {
    for (r, c) in tree {
        if p(r) == *rel {
            return c.unwrap();
        }
    }
    panic!("no such file");
}

fn plan(src: &Tree, dst: &Tree, delete_extras: bool) -> Plan {
    let (s, d) = (scan(src), scan(dst));
    let mut digests = Vec::new();
    for rel in contested(&s, &d) {
        digests.push(DigestPair {
            source: hash(content(src, &rel)),
            destination: hash(content(dst, &rel)),
            rel_path: rel,
        });
    }
    assert!(total_file_bytes(&s).is_some());
    diff(&s, &d, &digests, delete_extras).unwrap()
}

#[test]
fn new_file_is_copied() {
    let p = plan(&vec![("a.txt", Some("hello"))], &vec![], false);
    assert_eq!(p.stats.copies, 1);
    assert!(matches!(p.actions[0], SyncAction::Copy { .. }));
}

#[test]
fn changed_file_is_overwritten() {
    let p = plan(
        &vec![("a.txt", Some("new longer content"))],
        &vec![("a.txt", Some("old"))],
        false,
    );
    assert_eq!(p.stats.overwrites, 1);
    assert!(matches!(p.actions[0], SyncAction::Overwrite { .. }));
}

#[test]
fn identical_file_is_noop() {
    let tree = vec![("a.txt", Some("same"))];
    assert!(plan(&tree, &tree, false).is_empty());
}

#[test]
fn same_size_different_content_overwrites() {
    let p = plan(
        &vec![("a.txt", Some("aaaaa"))],
        &vec![("a.txt", Some("bbbbb"))],
        false,
    );
    assert_eq!(p.stats.overwrites, 1, "size matched, hash must catch the diff");
}

#[test]
fn extra_in_dest_deleted_only_with_flag() {
    let src = vec![("keep.txt", Some("x"))];
    let dst = vec![("keep.txt", Some("x")), ("extra.txt", Some("remove me"))];
    assert!(plan(&src, &dst, false).is_empty());
    let p = plan(&src, &dst, true);
    assert_eq!(p.stats.deletes, 1);
    assert!(matches!(p.actions[0], SyncAction::Delete { .. }));
}

#[test]
fn deleting_extras_only_adds_deletions() {
    let src = vec![("d", None), ("d/a", Some("1")), ("f", Some("2")), ("new", Some("3"))];
    let dst = vec![
        ("d", Some("was a file")),
        ("f", Some("9")),
        ("old", None),
        ("old/x", Some("4")),
        ("z", Some("5")),
    ];
    let kept = plan(&src, &dst, false);
    let all = plan(&src, &dst, true);
    let extra = |a: &SyncAction| ["old", "old/x", "z"].contains(&a.rel_path().display().as_str());
    let rest: Vec<_> = all.actions.iter().filter(|a| !extra(a)).collect();
    assert_eq!(rest, kept.actions.iter().collect::<Vec<_>>());
    assert_eq!(all.actions.len(), kept.actions.len() + 3);
    assert_eq!(all.stats.deletes, kept.stats.deletes + 3);
    assert_eq!(kept.stats.deletes, 1, "the file in the way of a directory");
}

/// Applies a plan to a tree in memory.
fn apply<'a>(dst: &Tree<'a>, src: &Tree<'a>, plan: &Plan) -> Tree<'a> {
    let mut out = dst.clone();
    for action in &plan.actions {
        let rel = action.rel_path().display();
        match action {
            SyncAction::Delete { is_dir, .. } => {
                let at = out.iter().position(|e| e.0 == rel).expect("what is deleted is there");
                assert_eq!(out[at].1.is_none(), *is_dir);
                out.retain(|e| e.0 != rel && !e.0.starts_with(&format!("{rel}/")));
            }
            _ => {
                let entry = *src.iter().find(|e| e.0 == rel).unwrap();
                out.retain(|e| e.0 != rel);
                out.push(entry);
            }
        }
    }
    out.sort();
    out
}

#[test]
fn apply_makes_dest_match_source() {
    let src = vec![
        ("nested", None),
        ("nested/deep", None),
        ("nested/deep/file.txt", Some("deep content")),
        ("top.txt", Some("top")),
    ];
    let dst = vec![];
    let first = plan(&src, &dst, false);
    let after = apply(&dst, &src, &first);
    assert_eq!(after, src);
    assert!(plan(&src, &after, false).is_empty(), "a second plan finds nothing to do");
}

#[test]
fn a_plan_turns_the_destination_into_a_mirror() {
    let src = vec![("a", None), ("a/x.txt", Some("1")), ("b", Some("file now"))];
    let dst = vec![
        ("a", Some("was a file")),
        ("b", None),
        ("b/inner", None),
        ("b/inner/y.txt", Some("2")),
        ("c.txt", Some("extra")),
    ];
    let p = plan(&src, &dst, true);
    assert_eq!(apply(&dst, &src, &p), src);

    let kept = apply(&dst, &src, &plan(&src, &dst, false));
    let mut expected = src.clone();
    expected.push(("c.txt", Some("extra")));
    assert_eq!(kept, expected, "extras stay, but for those under a file of the source");
}

#[test]
fn actions_come_in_an_order_that_can_be_applied() {
    let src = vec![("z", None), ("z/y", None), ("z/y/f.txt", Some("1")), ("a.txt", Some("2"))];
    let dst = vec![("old", None), ("old/deep", None), ("old/deep/g.txt", Some("3"))];
    let p = plan(&src, &dst, true);
    let mut order = Vec::new();
    for a in &p.actions {
        order.push(format!("{} {}", a.label(), a.rel_path().display()));
    }
    assert_eq!(
        order,
        vec![
            "delete old/deep/g.txt",
            "delete old/deep",
            "delete old",
            "mkdir z",
            "mkdir z/y",
            "copy a.txt",
            "copy z/y/f.txt",
        ]
    );
    assert_eq!((p.stats.create_dirs, p.stats.copies, p.stats.deletes), (2, 2, 3));
    assert_eq!(p.stats.bytes, 2);
}

#[test]
fn missing_hashes_are_reported() {
    let s = scan(&vec![("a.txt", Some("aaaaa"))]);
    let d = scan(&vec![("a.txt", Some("bbbbb"))]);
    match diff(&s, &d, &Vec::new(), false) {
        Err(DiffError::Unhashed(rel)) => assert_eq!(rel, p("a.txt")),
        other => panic!("expected a missing hash, got {other:?}"),
    }
}

#[test]
fn total_size_reports_overflow() {
    let mut s = Scan::new();
    for (name, size) in [("a", u64::MAX), ("b", 1)] {
        s.insert(FileEntry {
            rel_path: p(name),
            size,
            mtime: SystemTime::UNIX_EPOCH,
            is_dir: false,
        });
    }
    assert_eq!(total_file_bytes(&s), None);
    assert_eq!(total_file_bytes(&scan(&vec![("a", Some("xyz")), ("d", None)])), Some(3));
}

#[test]
fn hashing_does_not_depend_on_the_pieces() {
    let whole = hash("hello world");
    let parts = hash_pieces(&vec![b"hello".to_vec(), b"".to_vec(), b" world".to_vec()]);
    assert!(whole.same(&parts));
    assert!(!whole.same(&hash("hello worle")));
    assert_eq!(whole.bytes.len(), 32);
    assert_eq!(whole.bytes, blake3::hash(b"hello world").as_bytes().to_vec());
    let mut h = ContentHasher::new();
    h.update(b"hello ");
    h.update(b"world");
    assert!(h.finalize().same(&whole));
}

fn at(path: &str) -> Located {
    Located { path: p(path), canonical: Ok(p(path)) }
}

#[test]
fn apply_refuses_when_dest_inside_source() {
    let err = apply_with_progress(&at("/src"), &at("/src/sub"), &Plan::default(), false)
        .unwrap_err();
    assert!(err.message().contains("refusing to sync"));
}

#[test]
fn guard_refuses_every_overlap() {
    assert_eq!(
        guard_destination(&at("/src"), &at("/src/")).unwrap_err().message(),
        "refusing to sync: destination equals the source (/src)"
    );
    assert_eq!(
        guard_destination(&at("/src"), &at("/src/d")).unwrap_err().message(),
        "refusing to sync: destination /src/d is inside the source /src"
    );
    assert_eq!(
        guard_destination(&at("/a/src"), &at("/a")).unwrap_err().message(),
        "refusing to sync: source /a/src is inside the destination /a"
    );
    assert!(guard_destination(&at("/src"), &at("/srcs")).is_ok(), "names are compared whole");
    let gone = Located { path: p("/gone"), canonical: Err("No such file".to_string()) };
    assert_eq!(
        guard_destination(&at("/src"), &gone).unwrap_err(),
        GuardError::Unresolved { path: p("/gone"), why: "No such file".to_string() }
    );
    assert_eq!(
        guard_destination(&gone, &at("/d")).unwrap_err().message(),
        "resolving path /gone (does it exist?): No such file"
    );
}

#[test]
fn steps_write_inside_the_destination_only() {
    let plan = plan(
        &vec![("d", None), ("d/a.txt", Some("1"))],
        &vec![("old.txt", Some("2"))],
        true,
    );
    assert!(stays_inside(&p("/dst"), &plan));
    let steps = apply_with_progress(&at("/src"), &at("/dst"), &plan, false).unwrap();
    assert_eq!(steps.len(), 3);
    assert_eq!(steps[0].op, Some(FsOp::RemoveFile(p("/dst/old.txt"))));
    assert_eq!(steps[1].op, Some(FsOp::CreateDirAll(p("/dst/d"))));
    assert_eq!(
        steps[2].op,
        Some(FsOp::CopyFile {
            parent: Some(p("/dst/d")),
            from: p("/src/d/a.txt"),
            to: p("/dst/d/a.txt"),
        })
    );
    assert_eq!((steps[2].done, steps[2].total), (3, 3));

    let dry = apply_with_progress(&at("/src"), &at("/dst"), &plan, true).unwrap();
    assert!(dry.iter().all(|s| s.op.is_none()), "a dry run writes nothing");
    assert_eq!(dry[0].done, 1);
}

#[test]
fn resolution_is_not_fooled_by_dots() {
    let cwd = p("/cwd");
    let target = p("/w/dst/new/../../src/./leak.py");
    let canonical: Vec<Option<PathBuf>> = ancestors(&target)
        .iter()
        .map(|a| if a.same(&p("/w/dst")) { Some(p("/real/dst")) } else { None })
        .collect();
    assert_eq!(resolved_abs(&target, &canonical, &cwd).display(), "/real/src/leak.py");

    let nothing = vec![None, None, None];
    assert_eq!(resolved_abs(&p("out"), &nothing, &cwd).display(), "/cwd/out");
    assert_eq!(resolved_abs(&p("./a/../../b"), &nothing, &cwd).display(), "/b");
    assert_eq!(resolved_abs(&p("/../../etc"), &nothing, &cwd).display(), "/etc");
}

#[test]
fn climbing_actions_leave_the_destination() {
    for rel in ["../out", "a/../../out", "a/..", "..", "/dst/../out"] {
        let plan = Plan {
            actions: vec![SyncAction::CreateDir { rel_path: p(rel) }],
            ..Default::default()
        };
        assert!(!stays_inside(&p("/dst"), &plan), "{rel} goes up");
    }
    let plan = Plan {
        actions: vec![SyncAction::CreateDir { rel_path: p("a/..b/...") }],
        ..Default::default()
    };
    assert!(stays_inside(&p("/dst"), &plan));
}

#[test]
fn absolute_actions_leave_the_destination() {
    let plan = Plan {
        actions: vec![SyncAction::Delete { rel_path: p("/etc"), is_dir: true }],
        ..Default::default()
    };
    assert!(!stays_inside(&p("/dst"), &plan));
}

fn found(path: &str, is_dir: bool, is_symlink: bool) -> Found {
    Found {
        path: p(path),
        is_symlink,
        is_dir,
        is_file: !is_dir && !is_symlink,
        len: 7,
        mtime: SystemTime::UNIX_EPOCH,
    }
}

#[test]
fn scan_symlinks_are_skipped() {
    let all = vec![
        found("/r/real.txt", false, false),
        found("/r/realdir", true, false),
        found("/r/realdir/inner.txt", false, false),
        found("/r/link.txt", false, true),
        found("/r/linkdir", true, true),
    ];
    let scan = record(&p("/r"), &all).unwrap();
    assert!(scan.contains_key(&p("real.txt")));
    assert!(scan.contains_key(&p("realdir")));
    assert!(scan.contains_key(&p("realdir/inner.txt")));
    assert!(!scan.contains_key(&p("link.txt")), "symlinked file");
    assert!(!scan.contains_key(&p("linkdir")), "symlinked dir");
    assert!(!scan.contains_key(&p("linkdir/inner.txt")));
    assert_eq!(scan.get(&p("realdir")).unwrap().size, 0, "directories have no size");
    assert_eq!(scan.get(&p("real.txt")).unwrap().size, 7);
}

#[test]
fn scan_refuses_what_is_not_below_the_root() {
    match record(&p("/r"), &vec![found("/other/x", false, false)]) {
        Err(ScanError::NotBelowRoot(path)) => assert_eq!(path, p("/other/x")),
        other => panic!("expected a stray, got {other:?}"),
    }
}

#[test]
fn scan_all_streams_scanned_and_planned() {
    let (s, d) = (scan(&vec![("a.txt", Some("hello"))]), scan(&vec![]));
    assert!(check_destination(&at("/src"), &at("/dst")).is_ok());
    let msgs = vec![
        scanned_message(&p("/src"), &s),
        scanned_message(&p("/dst"), &d),
        planned_message(&p("/dst"), &s, &d, &Vec::new(), false).unwrap(),
    ];
    let scanned = msgs.iter().filter(|m| matches!(m, Message::Scanned { .. })).count();
    assert_eq!(scanned, 2, "one Scanned for source, one per destination");
    let mut planned = Vec::new();
    for m in &msgs {
        if let Message::Planned { plan, .. } = m {
            planned.push(plan);
        }
    }
    assert_eq!(planned.len(), 1);
    assert_eq!(planned[0].stats.copies, 1);
}

#[test]
fn scan_all_reports_error_for_unsafe_destination() {
    let err = check_destination(&at("/src"), &at("/src/backup")).unwrap_err();
    assert!(err.contains("refusing to sync"));
    assert!(err.starts_with("checking destination /src/backup: "));
}

#[test]
fn ancestors_end_at_the_root() {
    assert_eq!(ancestors(&p("/a/b")), vec![p("/a/b"), p("/a"), p("/")]);
    assert_eq!(ancestors(&p("a/b")), vec![p("a/b"), p("a"), p("")]);
}

#[test]
fn resolution_uses_the_longest_existing_part() {
    let target = p("/link/new/file.txt");
    let canonical = vec![None, None, Some(p("/real")), Some(p("/"))];
    assert_eq!(resolved_abs(&target, &canonical, &p("/cwd")), p("/real/new/file.txt"));
    assert_eq!(resolved_abs(&target, &vec![None, None, None, None], &p("/cwd")), target);
    let known = Resolver {
        known: vec![Place { path: p("/link"), resolved: p("/real") }],
    };
    assert_eq!(known.canonical(&p("/link/")), p("/real"));
    assert_eq!(known.canonical(&p("/other")), p("/other"));
}
