use bukagu::app::RunOptions;
use bukagu::engine::mapping::{apply_target, Issue, TargetState};
use bukagu::engine::scan::Found;
use bukagu::path::PathBuf;
use bukagu::resolve::{Place, Resolver};
use bukagu::store::Config;
use bukagu::ui::keys::Key;
use bukagu::ui::mappings::{
    scan_files, AvailRow, DestView, ExitChoice, FileSize, MapApp, MapEffect, MappingFacts, Pane,
    Screen, TargetFacts,
};
use bukagu::ui::mappings_view::{
    assigned_pane, available_pane, done_lines, error_lines, exit_buttons, exit_question,
    footer_lines, header_lines, info_rows, info_title, sources_pane, summary_lines,
};
use bukagu::ui::view::Lines;
use std::time::SystemTime;

fn p(s: &str) -> PathBuf {
    PathBuf::of(s)
}

fn place(s: &str) -> Place {
    Place { path: p(s), resolved: p(s) }
}

/// What walking a folder meets, given its files and their contents.
fn walk(root: &str, files: &[(&str, &str)]) -> Vec<FileSize> {
    let mut all = Vec::new();
    for (rel, content) in files {
        all.push(Found {
            path: p(&format!("{root}/{rel}")),
            is_symlink: false,
            is_dir: false,
            is_file: true,
            len: content.len() as u64,
            mtime: SystemTime::UNIX_EPOCH,
        });
    }
    scan_files(&p(root), &all)
}

fn app_opts(
    src: &[(&str, &str)],
    dests: &[(&str, &[(&str, &str)])],
    opts: RunOptions,
) -> MapApp {
    let config = Config {
        source: p("/src"),
        destinations: dests.iter().map(|d| p(d.0)).collect(),
    };
    let files = dests.iter().map(|d| walk(d.0, d.1)).collect();
    MapApp::new(&config, Vec::new(), opts, &Resolver::new(), &walk("/src", src), &files)
}

fn app_with(src: &[(&str, &str)], dests: &[(&str, &[(&str, &str)])]) -> MapApp {
    app_opts(src, dests, RunOptions::default())
}

fn first_file_row(app: &MapApp) -> usize {
    app.available_rows()
        .iter()
        .position(|r| matches!(r, AvailRow::File(_)))
        .expect("a file row is present")
}

/// What the file system says of the mappings: sources with these contents, no targets.
fn facts(app: &MapApp, contents: Option<&str>) -> Vec<MappingFacts> {
    app.mappings
        .iter()
        .map(|m| MappingFacts {
            source_is_file: contents.is_some(),
            contents: contents.map(|c| c.as_bytes().to_vec()),
            targets: m
                .targets
                .iter()
                .map(|t| TargetFacts { resolved: t.clone(), existing: None })
                .collect(),
        })
        .collect()
}

fn review(app: &mut MapApp, contents: Option<&str>) -> MapEffect {
    let f = facts(app, contents);
    assert!(app.review_bytes(&f).is_some());
    app.enter_summary(&place("/src"), &vec![place("/dst")], &f, None)
}

fn texts(lines: &Lines) -> Vec<String> {
    let mut out = Vec::new();
    for l in lines.lines.iter() {
        let mut s = String::new();
        for span in l.spans.iter() {
            s.push_str(&span.text);
        }
        out.push(s);
    }
    out
}

#[test]
fn scans_source_and_destination_files() {
    let app = app_with(
        &[("a.py", "x = 1\n"), ("sub/b.py", "y = 2\n")],
        &[("/dst", &[("a.py", "old\n")])],
    );
    assert_eq!(app.source_files.len(), 2, "recursive source scan");
    assert_eq!(app.dest_files.len(), 1, "destination file discovered");
    assert_eq!(app.available_indices().len(), 1);
    assert_eq!(app.dest_files[0].abs, p("/dst/a.py"));
}

#[test]
fn save_mapping_from_selection_then_target_leaves_available() {
    let mut app = app_with(&[("a.py", "x = 1\n")], &[("/dst", &[("a.py", "old\n")])]);
    app.src_cursor = 0;
    app.toggle_source();
    assert_eq!(app.selected_source, Some(p("a.py")));

    app.focus = Pane::Destinations;
    app.dest_cursor = first_file_row(&app);
    app.available_activate();
    assert_eq!(app.selected_targets.len(), 1);

    app.save_mapping();
    assert_eq!(app.mappings.len(), 1);
    assert_eq!(app.mappings[0].targets.len(), 1);
    assert!(app.selected_source.is_none(), "selection cleared after save");
    assert!(app.selected_targets.is_empty());
    assert_eq!(
        app.status,
        "Mapped a.py → 1 file(s). Pick another, or [s] to review & sync."
    );

    assert!(app.available_indices().is_empty());
    assert_eq!(app.assigned_rows().len(), 1);
}

#[test]
fn toggling_a_target_twice_deselects_it() {
    let mut app = app_with(&[], &[("/dst", &[("a.py", "old\n")])]);
    app.focus = Pane::Destinations;
    app.dest_cursor = first_file_row(&app);
    app.available_activate();
    assert_eq!(app.selected_targets.len(), 1);
    app.available_activate();
    assert!(app.selected_targets.is_empty(), "second Space deselects");
}

#[test]
fn space_on_a_folder_opens_and_collapses_it() {
    let mut app = app_with(&[], &[("/d1", &[("a.py", "1\n")]), ("/d2", &[("b.py", "2\n")])]);
    assert!(app.dest_open.is_empty(), "multi-root starts collapsed");
    assert_eq!(app.available_rows().len(), 2, "just the two folder rows");

    app.focus = Pane::Destinations;
    app.dest_cursor = 0; // first folder
    app.available_activate(); // Space opens it
    assert!(app.dest_open.contains(&0));
    assert_eq!(app.available_rows().len(), 3, "folder + its file + folder");

    app.available_activate(); // Space again collapses it
    assert!(!app.dest_open.contains(&0));
    assert_eq!(app.available_rows().len(), 2);
}

#[test]
fn add_target_rejects_an_extension_mismatch() {
    let mut app = app_with(&[], &[("/dst", &[])]);
    let err = app.add_target(p("api.ts"), p("/dst/later.txt")).unwrap_err();
    assert!(err.contains(".ts"), "the message names the source ext");
    assert!(err.contains(".txt"), "and the target ext");
    assert!(app.mappings.is_empty(), "nothing was mapped");
    assert_eq!(
        app.add_target(p("api.ts"), p("/dst/bare")).unwrap_err(),
        "/dst/bare has no extension, but the source api.ts has .ts — map files of the same type."
    );

    app.add_target(p("api.TS"), p("/dst/api.ts")).unwrap();
    assert_eq!(app.mappings.len(), 1);
}

#[test]
fn save_mapping_skips_a_mismatch_and_keeps_the_source_selected() {
    let mut app = app_with(
        &[("api.ts", "export const x = 1\n")],
        &[("/dst", &[("later.txt", "old\n")])],
    );
    app.selected_source = Some(p("api.ts"));
    app.selected_targets.push(p("/dst/later.txt"));
    app.save_mapping();
    assert!(app.mappings.is_empty(), "the mismatched target was skipped");
    assert!(app.status_is_error, "an error is surfaced");
    assert_eq!(
        app.selected_source,
        Some(p("api.ts")),
        "the source stays selected so the user can pick a matching target"
    );
}

#[test]
fn save_mapping_takes_targets_in_order_and_reports_what_it_skipped() {
    let mut app = app_with(&[], &[("/dst", &[])]);
    app.save_mapping();
    assert_eq!(app.status, "Pick a source file first — Space on the left pane.");
    app.selected_source = Some(p("a.py"));
    app.save_mapping();
    assert_eq!(
        app.status,
        "Pick at least one destination file — Space on the right pane."
    );
    app.selected_targets = vec![p("/dst/z.py"), p("/dst/note.txt"), p("/dst/a.py")];
    app.save_mapping();
    assert_eq!(app.mappings[0].targets, vec![p("/dst/a.py"), p("/dst/z.py")]);
    assert!(app.status.starts_with("Mapped 2, skipped 1: /dst/note.txt has .txt"));
    assert!(app.selected_source.is_none());
}

#[test]
fn reload_picks_up_a_newly_added_file() {
    let mut app = app_with(&[], &[("/dst", &[("a.py", "1\n")])]);
    assert_eq!(app.dest_files.len(), 1);
    let now = vec![walk("/dst", &[("a.py", "1\n"), ("b.py", "2\n")])];
    app.reload(&Vec::new(), &now);
    assert_eq!(app.dest_files.len(), 2, "reload re-reads the folder");
    assert_eq!(app.status, "Reloaded — 0 source file(s), 2 destination file(s).");
}

#[test]
fn reload_drops_what_is_gone() {
    let mut app = app_with(&[("a.py", ""), ("b.py", "")], &[("/dst", &[("a.py", ""), ("b.py", "")])]);
    app.selected_source = Some(p("b.py"));
    app.selected_targets = vec![p("/dst/a.py"), p("/dst/b.py")];
    app.src_cursor = 1;
    app.dest_cursor = 2;
    app.reload(&walk("/src", &[("a.py", "")]), &vec![walk("/dst", &[("a.py", "")])]);
    assert_eq!(app.selected_source, None);
    assert_eq!(app.selected_targets, vec![p("/dst/a.py")]);
    assert_eq!((app.src_cursor, app.dest_cursor), (0, 1));
}

#[test]
fn q_prompts_before_exiting_and_confirm_leaves() {
    let mut app = app_with(&[], &[("/dst", &[])]);
    app.on_key(Key::Char('q'));
    assert_eq!(app.exit_prompt, Some(ExitChoice::Cancel));
    assert!(!app.done);

    app.on_key(Key::Esc);
    assert!(app.exit_prompt.is_none());
    assert!(!app.done);

    app.on_key(Key::Char('q'));
    app.on_key(Key::Left);
    assert_eq!(app.exit_prompt, Some(ExitChoice::Confirm));
    app.on_key(Key::Enter);
    assert!(app.done, "confirming exits the mapping tab");
    assert_eq!(exit_question(), "Are you sure to exit mapping tab?");
    assert_eq!(exit_buttons(ExitChoice::Confirm).spans[0].text, "  Confirm  ");
}

#[test]
fn toggle_dest_view_then_unmap_removes_the_mapping() {
    let mut app = app_with(&[("a.py", "x = 1\n")], &[("/dst", &[("a.py", "old\n")])]);
    app.add_target(p("a.py"), p("/dst/a.py")).unwrap();
    app.toggle_dest_view();
    assert_eq!(app.dest_view, DestView::Assigned);
    assert_eq!(app.assigned_rows().len(), 1);
    app.dest_cursor = 0;
    app.unmap_at_cursor();
    assert!(app.mappings.is_empty(), "unmapping the last target drops it");
    assert_eq!(app.status, "Unmapped /dst/a.py.");
}

#[test]
fn add_target_rejects_a_duplicate_target() {
    let mut app = app_with(&[], &[("/dst", &[])]);
    app.add_target(p("a.py"), p("/dst/a.py")).unwrap();
    let err = app.add_target(p("b.py"), p("/dst/a.py")).unwrap_err();
    assert!(err.contains("already mapped"));
    assert_eq!(app.mappings.len(), 1, "the rejected add changed nothing");
}

#[test]
fn enter_summary_builds_a_plan() {
    let mut app = app_with(&[("a.py", "x = 1\n")], &[("/dst", &[])]);
    app.add_target(p("a.py"), p("/dst/a.py")).unwrap();
    assert_eq!(app.on_key(Key::Char('s')), MapEffect::Review);
    assert_eq!(review(&mut app, Some("x = 1\n")), MapEffect::Nothing);
    assert_eq!(app.screen, Screen::Summary);
    assert_eq!(app.plan.as_ref().unwrap().stats.created, 1);
}

/// Writes the pending targets into nothing.
fn run_apply(app: &mut MapApp) -> usize {
    let mut written = 0;
    for tp in app.pending() {
        let target = place(&tp.target.display());
        let write =
            apply_target(&place("/src"), &vec![place("/dst")], &tp, &target, app.opts.dry_run)
                .unwrap();
        if write.is_some() {
            written += 1;
        }
    }
    app.apply_done();
    written
}

#[test]
fn apply_writes_targets_with_a_banner_and_marks_synced() {
    let mut app = app_with(&[("a.py", "print('hi')\n")], &[("/dst", &[])]);
    app.add_target(p("a.py"), p("/dst/out/a.py")).unwrap();
    review(&mut app, Some("print('hi')\n"));
    assert_eq!(app.apply(), MapEffect::Apply);
    assert_eq!(run_apply(&mut app), 1);
    assert!(app.synced, "a real apply marks the session synced");
    assert_eq!(app.screen, Screen::Done);
    assert!(app.summary.starts_with("Mapping sync OK — 1 written, 0 up to date ("));
    let session = app.session();
    assert!(session.synced && session.mappings.len() == 1);
}

#[test]
fn dry_run_apply_writes_nothing() {
    let mut app = app_opts(
        &[("a.py", "x = 1\n")],
        &[("/dst", &[])],
        RunOptions { dry_run: true, ..Default::default() },
    );
    app.add_target(p("a.py"), p("/dst/a.py")).unwrap();
    review(&mut app, Some("x = 1\n"));
    assert_eq!(app.apply(), MapEffect::Apply);
    assert_eq!(run_apply(&mut app), 0);
    assert!(!app.synced, "dry run never marks synced");
    assert_eq!(
        app.summary,
        "Dry run — 1 mapping change(s) previewed, nothing written."
    );
}

#[test]
fn yes_applies_at_once_unless_something_blocks() {
    let opts = RunOptions { yes: true, ..Default::default() };
    let mut app = app_opts(&[], &[("/dst", &[])], opts);
    app.add_target(p("a.py"), p("/dst/a.py")).unwrap();
    assert_eq!(review(&mut app, Some("x\n")), MapEffect::Apply);

    let mut app = app_opts(&[], &[("/dst", &[])], opts);
    app.add_target(p("a.py"), p("/src/a.py")).unwrap();
    assert_eq!(review(&mut app, Some("x\n")), MapEffect::Nothing);
    assert!(app.has_blocking());
    assert_eq!(app.apply(), MapEffect::Nothing);
    assert_eq!(app.status, "Resolve the blocking issues before syncing.");
    assert_eq!(app.issues, vec![Issue::TargetInSource(p("/src/a.py"))]);

    let mut app = app_opts(&[], &[("/dst", &[])], opts);
    app.add_target(p("a.py"), p("/dst/a.py")).unwrap();
    assert_eq!(review(&mut app, None), MapEffect::Nothing, "a missing source writes nothing");
    assert_eq!(app.plan.as_ref().unwrap().targets[0].state, TargetState::SourceMissing);
    assert_eq!(app.apply(), MapEffect::Nothing);
    assert_eq!(app.status, "Everything is already in sync — nothing to write.");
}

#[test]
fn unreadable_sources_lead_to_the_error_screen() {
    let mut app = app_with(&[], &[("/dst", &[])]);
    app.add_target(p("a.py"), p("/dst/a.py")).unwrap();
    let f = facts(&app, None);
    app.enter_summary(&place("/src"), &vec![place("/dst")], &f, Some("denied".into()));
    assert_eq!(app.screen, Screen::Error);
    assert_eq!(
        texts(&error_lines(&app)),
        vec!["The mapping sync could not complete:", "", "denied"]
    );
    app.on_key(Key::Enter);
    assert_eq!(app.screen, Screen::Page);
    assert!(app.error_msg.is_none());
    app.apply_failed("full".into());
    assert_eq!(app.screen, Screen::Error);
}

#[test]
fn keys_move_between_panes_and_rows() {
    let mut app = app_with(&[("a.py", ""), ("b.py", "")], &[("/dst", &[("a.py", "")])]);
    app.on_key(Key::Down);
    app.on_key(Key::Down);
    assert_eq!(app.src_cursor, 1);
    app.on_key(Key::Char(' '));
    assert_eq!(app.selected_source, Some(p("b.py")));
    app.on_key(Key::Char(' '));
    assert_eq!(app.status, "Source deselected.");
    app.on_key(Key::Tab);
    assert_eq!(app.focus, Pane::Destinations);
    app.on_key(Key::Tab);
    app.on_key(Key::Enter);
    assert_eq!(app.info_expanded, Some(0));
    app.on_key(Key::Enter);
    assert_eq!(app.info_expanded, None);
    app.on_key(Key::BackTab);
    assert_eq!(app.focus, Pane::Destinations);
    app.on_key(Key::Char('a'));
    assert_eq!(app.dest_view, DestView::Assigned);
    app.on_key(Key::Char('d'));
    app.on_key(Key::Left);
    assert_eq!(app.focus, Pane::Sources);
    assert_eq!(app.on_key(Key::Char('r')), MapEffect::Rescan);
    assert_eq!(app.on_key(Key::Char('s')), MapEffect::Nothing);
    assert_eq!(
        app.status,
        "No mappings yet — pick a source and target files, then Enter."
    );
}

#[test]
fn draw_map_renders_without_panicking() {
    let mut app = app_with(&[("a.py", "x = 1\n")], &[("/dst", &[("a.py", "old\n")])]);
    app.selected_source = Some(p("a.py"));
    let sources = sources_pane(&app);
    let dests = available_pane(&app);
    assert!(sources.title.contains("sources"), "the sources pane is drawn");
    assert!(dests.title.contains("destinations"), "the destinations pane is drawn");
    assert_eq!(texts(&sources.lines), vec!["a.py"], "a discovered file is shown");
    assert_eq!(sources.title, "sources (1)");
    assert_eq!(sources.selected, Some(0));
    assert_eq!(dests.selected, None, "only the focused pane has a cursor");
    assert_eq!(texts(&dests.lines), vec!["▾ dst   (1 available)", "      a.py"]);
    assert_eq!(
        texts(&header_lines(&app)),
        vec!["bukagu  ·  file mappings", "Source  /src"]
    );
    assert!(texts(&footer_lines(&app))[1].contains("Space pick source"));
}

#[test]
fn panes_show_mapped_and_selected_files() {
    let mut app = app_with(
        &[("a.py", ""), ("b.py", "")],
        &[("/x/dst", &[("a.py", "12345"), ("b.py", "1")])],
    );
    app.add_target(p("a.py"), p("/x/dst/a.py")).unwrap();
    app.selected_targets.push(p("/x/dst/b.py"));
    app.focus = Pane::Destinations;
    app.dest_cursor = 9;
    assert_eq!(texts(&sources_pane(&app).lines), vec!["a.py  (mapped)", "b.py"]);
    let dests = available_pane(&app);
    assert_eq!(texts(&dests.lines), vec!["▾ dst   (1 available)", "    ✓ b.py"]);
    assert_eq!(dests.selected, Some(1));
    let assigned = assigned_pane(&app);
    assert_eq!(assigned.title, "destinations · assigned (1)");
    assert_eq!(texts(&assigned.lines), vec!["dst/a.py  ←  a.py"]);
    app.info_expanded = Some(0);
    let info = info_rows(&app);
    assert_eq!(
        texts(&info.lines),
        vec!["▾ /x/dst   6 B  ·  2 files  ·  1 mapped", "      a.py  →  dst/a.py"]
    );
    assert_eq!(info.stops, vec![0]);
    assert_eq!(
        info_title(&app),
        "destination folders  ·  1 mapping(s) → 1 target(s)"
    );
    app.unmap_target(&p("/x/dst/a.py"));
    assert_eq!(
        texts(&info_rows(&app).lines)[1],
        "      (no mappings into this folder yet)"
    );
    assert_eq!(
        assigned_pane(&app).note,
        Some("(nothing mapped yet — press [a] to pick target files)")
    );
}

#[test]
fn summary_lists_issues_targets_and_totals() {
    let mut app = app_with(&[], &[("/dst", &[])]);
    app.add_target(p("a.py"), p("/dst/a.py")).unwrap();
    app.add_target(p("data.bin"), p("/elsewhere/data.bin")).unwrap();
    assert!(summary_lines(&app).lines.is_empty(), "nothing before a review");
    let mut f = facts(&app, Some("xy"));
    f[0].source_is_file = false;
    f[0].contents = None;
    app.enter_summary(&place("/src"), &vec![place("/dst")], &f, None);
    assert_eq!(
        texts(&summary_lines(&app)),
        vec![
            "Issues:",
            "  • source file a.py is missing",
            "  • /elsewhere/data.bin is outside every destination folder",
            "",
            "  missing a.py  →  /dst/a.py",
            "  create  data.bin  →  /elsewhere/data.bin   [no banner (unknown type)]",
            "",
            "1 to create · 0 to update · 0 up to date · 2 B bytes",
            "1 source(s) missing · 1 without a banner",
        ]
    );
    app.apply_done_at("2026-01-01T00:00:00Z".into());
    assert_eq!(
        texts(&done_lines(&app)),
        vec![
            "Last sync: OK  ·  synced at 2026-01-01T00:00:00Z",
            "",
            "Mapping sync OK — 1 written, 0 up to date (2 B). Synced at 2026-01-01T00:00:00Z.",
        ]
    );
}

#[test]
fn files_are_listed_in_order_without_links() {
    let mut all = Vec::new();
    for (path, is_symlink, is_dir) in [
        ("/r/b/x.txt", false, false),
        ("/r/b", false, true),
        ("/r/link", true, false),
        ("/r/a.txt", false, false),
        ("/r/b.txt", false, false),
    ] {
        all.push(Found {
            path: p(path),
            is_symlink,
            is_dir,
            is_file: !is_dir && !is_symlink,
            len: 1,
            mtime: SystemTime::UNIX_EPOCH,
        });
    }
    let mut names = Vec::new();
    for f in scan_files(&p("/r"), &all) {
        names.push(f.rel.display());
    }
    assert_eq!(names, vec!["a.txt", "b/x.txt", "b.txt"], "component by component");
}
